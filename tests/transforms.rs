use ml_toolkit::binning::quantile_bins;
use ml_toolkit::encoding::OneHotEncoder;
use ml_toolkit::error::FrameError;
use ml_toolkit::frame::DataFrame;
use ml_toolkit::pipeline::{
    CombinedAttributesAdder, Imputer, ImputerStrategy, PolynomialFeatures, StandardScalar,
    StringEncoding,
};
use ml_toolkit::sampling::StratifiedShuffleSplit;
use ml_toolkit::value::{DataType, DataTypeValue};

fn text(s: &str) -> DataTypeValue<f32> {
    DataTypeValue::String(s.to_string())
}

fn floats(column: &Vec<DataTypeValue<f32>>) -> Vec<f32> {
    column
        .iter()
        .map(|v| match v {
            DataTypeValue::Float(x) => *x,
            _ => panic!("not a float cell"),
        })
        .collect()
}

/// A frame with a float column `a` and a text column `cat`.
fn frame_a_cat(cats: &[Option<&str>]) -> DataFrame<f32> {
    let mut df: DataFrame<f32> = DataFrame::new();
    df.insert_column("a", &Vec::new(), &DataType::Float).unwrap();
    df.insert_column("cat", &Vec::new(), &DataType::String).unwrap();
    for (i, c) in cats.iter().enumerate() {
        let cell = match c {
            Some(s) => text(s),
            None => DataTypeValue::Null,
        };
        df.insert_row(&vec![("a".to_string(), DataTypeValue::Float(i as f32)), ("cat".to_string(), cell)])
            .unwrap();
    }
    df
}

#[test]
fn test_df_one_hot_encoded_drop() {
    let df = frame_a_cat(&[Some("x"), Some("x"), Some("y"), Some("z")]);
    let encoded = OneHotEncoder::new(true).encode(&df, &vec!["cat".to_string()], 1.0, 0.0).unwrap();
    assert_eq!(encoded.columns(), vec!["ids", "a", "x", "y"]);
    let x = floats(encoded.get_column("x").unwrap().1);
    let y = floats(encoded.get_column("y").unwrap().1);
    assert_eq!(x, vec![1.0, 1.0, 0.0, 0.0]);
    assert_eq!(y, vec![0.0, 0.0, 1.0, 0.0]);
    // the row in the dropped category "z" is all zero
    assert_eq!((x[3], y[3]), (0.0, 0.0));
    assert_eq!(df.columns(), vec!["ids", "a", "cat"]);
}

#[test]
fn test_df_one_hot_encoded_no_drop() {
    let df = frame_a_cat(&[Some("q"), None, Some("p"), Some("q"), Some("r")]);
    let encoded = OneHotEncoder::new(false).encode(&df, &vec!["cat".to_string()], 1.0, 0.0).unwrap();
    assert_eq!(encoded.columns(), vec!["ids", "a", "null", "p", "q", "r"]);
    let names = encoded.columns();
    let category_columns: Vec<Vec<f32>> =
        names[2..].iter().map(|n| floats(encoded.get_column(n).unwrap().1)).collect();
    for row in 0..df.len() {
        let sum: f32 = category_columns.iter().map(|c| c[row]).sum();
        assert_eq!(sum, 1.0);
    }
    assert_eq!(floats(encoded.get_column("null").unwrap().1), vec![0.0, 1.0, 0.0, 0.0, 0.0]);
    assert_eq!(floats(encoded.get_column("q").unwrap().1), vec![1.0, 0.0, 0.0, 1.0, 0.0]);
}

#[test]
fn test_df_one_hot_encoded_with_numeric_column() {
    let df = frame_a_cat(&[Some("x")]);
    let r = OneHotEncoder::new(false).encode(&df, &vec!["a".to_string()], 1.0, 0.0);
    assert_eq!(r.err(), Some(FrameError::TypeMismatch));
}

#[test]
fn one_hot_refusals() {
    let clash = frame_a_cat(&[Some("null"), None]);
    let enc = OneHotEncoder::new(false);
    assert_eq!(enc.encode(&clash, &vec!["cat".to_string()], 1.0, 0.0).err(), Some(FrameError::ReservedCategory));
    let taken = frame_a_cat(&[Some("a"), Some("b")]);
    assert_eq!(enc.encode(&taken, &vec!["cat".to_string()], 1.0, 0.0).err(), Some(FrameError::DuplicateColumn));
    let reserved = frame_a_cat(&[Some("ids")]);
    assert_eq!(enc.encode(&reserved, &vec!["cat".to_string()], 1.0, 0.0).err(), Some(FrameError::ReservedColumn));
    assert_eq!(enc.encode(&taken, &vec!["nope".to_string()], 1.0, 0.0).err(), Some(FrameError::UnknownColumn));
    assert_eq!(enc.encode(&taken, &vec!["ids".to_string()], 1.0, 0.0).err(), Some(FrameError::ReservedColumn));
}

#[test]
fn one_hot_categories_sort_by_bytes() {
    let df = frame_a_cat(&[Some("b"), Some("B"), Some("ab"), Some("x"), Some("é")]);
    let encoded = OneHotEncoder::new(false).encode(&df, &vec!["cat".to_string()], 1.0, 0.0).unwrap();
    assert_eq!(encoded.columns(), vec!["ids", "a", "B", "ab", "b", "x", "é"]);
}

#[test]
fn test_get_bins() {
    let keys: Vec<u64> = vec![50, 10, 40, 10, 30, 20, 60];
    let bins = quantile_bins(&keys, 3);
    // sorted order: rows 1, 3, 5, 4, 2, 0, 6 in groups of three
    assert_eq!(bins, vec![1, 0, 1, 0, 1, 0, 2]);
    assert!(bins.iter().all(|b| *b < 3));
    assert_eq!(quantile_bins(&vec![5, 5, 5, 5], 2), vec![0, 0, 1, 1]);
    assert_eq!(quantile_bins(&Vec::new(), 4), Vec::<usize>::new());
    assert_eq!(quantile_bins(&vec![9, 8, 7], 1), vec![0, 0, 0]);
}

#[test]
fn quantile_bins_respect_value_order() {
    let keys: Vec<u64> = vec![7, 3, 9, 1, 4, 4, 8, 2, 6, 5];
    let bins = quantile_bins(&keys, 4);
    for a in 0..keys.len() {
        for b in 0..keys.len() {
            if bins[a] < bins[b] {
                assert!(keys[a] <= keys[b]);
            }
        }
    }
    let mut counts = vec![0; 4];
    for b in bins.iter() {
        counts[*b] += 1;
    }
    assert_eq!(counts, vec![3, 3, 3, 1]);
}

#[test]
fn test_simple_stratified_shuffle_split() {
    let split = StratifiedShuffleSplit::new(5, &vec![("median_income".to_string(), 5)]).unwrap();
    let keys: Vec<u64> = (0..20u64).map(|i| (i * 7) % 20).collect();
    let (train, test) = split.split(&vec![keys.clone()]);
    assert_eq!(train.len() + test.len(), 20);
    let mut all: Vec<usize> = train.iter().chain(test.iter()).cloned().collect();
    all.sort();
    assert_eq!(all, (0..20).collect::<Vec<usize>>());
    // five strata of four rows each; the first row of each stratum is a test row
    assert_eq!(test.len(), 5);
    let again = split.split(&vec![keys]);
    assert_eq!(again, (train, test));
}

#[test]
fn test_multiple_stratified_shuffle_split() {
    let split = StratifiedShuffleSplit::new(
        2,
        &vec![("median_income".to_string(), 2), ("households".to_string(), 2)],
    )
    .unwrap();
    assert_eq!(split.columns(), vec!["median_income", "households"]);
    let income: Vec<u64> = vec![1, 2, 3, 4, 5, 6, 7, 8];
    let households: Vec<u64> = vec![8, 7, 6, 5, 4, 3, 2, 1];
    // each row has one low and one high bin: a single stratum {0, 1}
    let (train, test) = split.split(&vec![income, households]);
    assert_eq!(test, vec![0, 2, 4, 6]);
    assert_eq!(train, vec![1, 3, 5, 7]);
}

#[test]
fn stratified_split_parameters_are_checked() {
    let one = vec![("c".to_string(), 3)];
    assert_eq!(StratifiedShuffleSplit::new(0, &one).err(), Some(FrameError::InvalidParameter));
    assert_eq!(StratifiedShuffleSplit::new(2, &Vec::new()).err(), Some(FrameError::InvalidParameter));
    let zero_bins = vec![("c".to_string(), 3), ("d".to_string(), 0)];
    assert_eq!(StratifiedShuffleSplit::new(2, &zero_bins).err(), Some(FrameError::InvalidParameter));
}

#[test]
fn test_imputer() {
    let df = frame_a_cat(&[Some("x"), None]);
    let mut df = df;
    df.insert_column("b", &vec![DataTypeValue::Null, DataTypeValue::Float(2.0)], &DataType::Float).unwrap();
    let imputer = Imputer::new(&ImputerStrategy::Median);
    assert_eq!(imputer.strategy(), ImputerStrategy::Median);
    let filled = imputer.fill_nulls(&df, "b", 2.0).unwrap();
    assert_eq!(floats(filled.get_column("b").unwrap().1), vec![2.0, 2.0]);
    let same = imputer.fill_nulls(&df, "cat", 9.0).unwrap();
    assert!(matches!(same.get_column("cat").unwrap().1[1], DataTypeValue::Null));
    assert_eq!(imputer.fill_nulls(&df, "ids", 0.0).err(), Some(FrameError::ReservedColumn));
    assert_eq!(imputer.fill_nulls(&df, "zz", 0.0).err(), Some(FrameError::UnknownColumn));
}

#[test]
fn test_polynomial_features() {
    let polynomial_features = PolynomialFeatures::new(3);
    assert_eq!(polynomial_features.feature_names("median_income"), vec!["median_income^2", "median_income^3"]);
    assert_eq!(PolynomialFeatures::new(12).feature_names("x")[10], "x^12");
    assert!(PolynomialFeatures::new(1).feature_names("x").is_empty());
    assert!(PolynomialFeatures::new(0).feature_names("x").is_empty());
}

#[test]
fn transformer_constructors() {
    assert_eq!(PolynomialFeatures::new(3).degrees(), 3);
    let _ = StandardScalar::new();
    let _ = CombinedAttributesAdder::new();
    assert_eq!(StringEncoding::OneHot, StringEncoding::OneHot);
}
