use ml_toolkit::error::FrameError;
use ml_toolkit::frame::DataFrame;
use ml_toolkit::value::{DataType, DataTypeValue};

fn text(s: &str) -> DataTypeValue<f32> {
    DataTypeValue::String(s.to_string())
}

fn entry(name: &str, value: DataTypeValue<f32>) -> (String, DataTypeValue<f32>) {
    (name.to_string(), value)
}

fn small_frame() -> DataFrame<f32> {
    let mut df: DataFrame<f32> = DataFrame::new();
    df.insert_column("income", &Vec::new(), &DataType::Float).unwrap();
    df.insert_column("location", &Vec::new(), &DataType::String).unwrap();
    df.insert_row(&vec![entry("income", DataTypeValue::Float(10.0)), entry("location", text("Washington"))])
        .unwrap();
    df.insert_row(&vec![entry("location", text("Oregon")), entry("income", DataTypeValue::Null)]).unwrap();
    df.insert_row(&vec![entry("income", DataTypeValue::Float(3.5)), entry("location", DataTypeValue::Null)])
        .unwrap();
    df
}

fn float_of(v: &DataTypeValue<f32>) -> Option<f32> {
    match v {
        DataTypeValue::Float(x) => Some(*x),
        _ => None,
    }
}

#[test]
fn test_insert_column() {
    let mut df: DataFrame<f32> = DataFrame::new();
    let column_name = "ocean_proximity";
    let dtype = DataType::String;
    df.insert_column(column_name, &Vec::new(), &dtype).unwrap();
    let (column_dtype, column_values) = df.get_column(column_name).unwrap();
    assert_eq!(*column_dtype, dtype);
    assert!(column_values.len() == 0);
}

#[test]
fn test_insert_column_invalid_values_length() {
    let mut df: DataFrame<f32> = DataFrame::new();
    let values = vec![text("near ocean"), text("far from ocean")];
    let r = df.insert_column("ocean_proximity", &values, &DataType::String);
    assert_eq!(r, Err(FrameError::LengthMismatch));
    assert_eq!(df.columns(), vec!["ids".to_string()]);
}

#[test]
fn insert_column_refuses_reserved_duplicate_and_mistyped() {
    let mut df = small_frame();
    let three = vec![DataTypeValue::Float(1.0), DataTypeValue::Float(2.0), DataTypeValue::Float(3.0)];
    assert_eq!(df.insert_column("ids", &three, &DataType::Float), Err(FrameError::ReservedColumn));
    assert_eq!(df.insert_column("x", &three, &DataType::Id), Err(FrameError::ReservedColumn));
    assert_eq!(df.insert_column("income", &three, &DataType::Float), Err(FrameError::DuplicateColumn));
    let mixed = vec![DataTypeValue::Float(1.0), text("a"), DataTypeValue::Null];
    assert_eq!(df.insert_column("mixed", &mixed, &DataType::Float), Err(FrameError::TypeMismatch));
    assert_eq!(df.insert_column("ok", &three, &DataType::Float), Ok(()));
    assert_eq!(df.columns(), vec!["ids", "income", "location", "ok"]);
}

#[test]
fn test_insert_row() {
    let mut df: DataFrame<f32> = DataFrame::new();
    df.insert_column("income", &Vec::new(), &DataType::Float).unwrap();
    df.insert_column("location", &Vec::new(), &DataType::String).unwrap();
    let row = vec![entry("income", DataTypeValue::Float(10.0)), entry("location", text("Washington"))];
    df.insert_row(&row).unwrap();
    for (column_name, value) in row.iter() {
        let (_, values) = df.get_column(column_name).unwrap();
        assert_eq!(values.len(), 1);
        match (&values[0], value) {
            (DataTypeValue::Float(a), DataTypeValue::Float(b)) => assert_eq!(a, b),
            (DataTypeValue::String(a), DataTypeValue::String(b)) => assert_eq!(a, b),
            _ => panic!("cell changed its kind"),
        }
    }
    let (_, ids) = df.get_column("ids").unwrap();
    assert!(matches!(ids[0], DataTypeValue::Id(0)));
    assert_eq!(df.len(), 1);
}

#[test]
fn test_insert_row_invalid_column() {
    let mut df: DataFrame<f32> = DataFrame::new();
    df.insert_column("income", &Vec::new(), &DataType::Float).unwrap();
    let r = df.insert_row(&vec![entry("not income", DataTypeValue::Float(10.0))]);
    assert_eq!(r, Err(FrameError::UnknownColumn));
    assert_eq!(df.len(), 0);
}

#[test]
fn test_insert_row_not_specifying_all_columns() {
    let mut df: DataFrame<f32> = DataFrame::new();
    df.insert_column("income", &Vec::new(), &DataType::Float).unwrap();
    df.insert_column("location", &Vec::new(), &DataType::String).unwrap();
    let r = df.insert_row(&vec![entry("income", DataTypeValue::Float(10.0))]);
    assert_eq!(r, Err(FrameError::MissingColumn));
    assert_eq!(df.len(), 0);
}

#[test]
fn insert_row_refuses_duplicates_ids_and_mistyped_values() {
    let mut df = small_frame();
    let dup = vec![
        entry("income", DataTypeValue::Float(1.0)),
        entry("income", DataTypeValue::Float(2.0)),
        entry("location", text("a")),
    ];
    assert_eq!(df.insert_row(&dup), Err(FrameError::DuplicateColumn));
    let ids = vec![entry("ids", DataTypeValue::Id(9)), entry("income", DataTypeValue::Float(1.0))];
    assert_eq!(df.insert_row(&ids), Err(FrameError::ReservedColumn));
    let wrong = vec![entry("income", text("ten")), entry("location", text("a"))];
    assert_eq!(df.insert_row(&wrong), Err(FrameError::TypeMismatch));
    assert_eq!(df.len(), 3);
    let (_, ids) = df.get_column("ids").unwrap();
    assert!(ids.iter().enumerate().all(|(i, v)| matches!(v, DataTypeValue::Id(j) if *j == i)));
}

#[test]
fn test_get_columns_by_index() {
    let df = small_frame();
    let columns = df.columns();
    let (dtype, _) = df.get_column(&columns[0]).unwrap();
    let (column_name, column_dtype, column_values) = df.get_column_by_index(0).unwrap();
    assert!(column_values.len() == 3);
    assert_eq!(column_dtype, dtype);
    assert!(*column_name == columns[0]);
    assert_eq!(df.get_column_by_index(3).err(), Some(FrameError::UnknownColumn));
    assert_eq!(df.get_column("nothing").err(), Some(FrameError::UnknownColumn));
}

#[test]
fn test_get_columns_as_df() {
    let df = small_frame();
    let columns = vec!["location".to_string(), "ids".to_string(), "income".to_string()];
    let new_df = df.get_columns_as_df(&columns).unwrap();
    assert_eq!(new_df.columns(), vec!["ids", "location", "income"]);
    assert_eq!(new_df.len(), 3);
    let (_, values) = new_df.get_column("ids").unwrap();
    assert!(values.len() == 3);
    let repeated = vec!["income".to_string(), "income".to_string()];
    assert_eq!(df.get_columns_as_df(&repeated).err(), Some(FrameError::DuplicateColumn));
    let missing = vec!["income".to_string(), "nothing".to_string()];
    assert_eq!(df.get_columns_as_df(&missing).err(), Some(FrameError::UnknownColumn));
}

#[test]
fn get_rows_as_df_takes_rows_in_order() {
    let df = small_frame();
    let sub = df.get_rows_as_df(&vec![2, 0]).unwrap();
    assert_eq!(sub.len(), 2);
    assert_eq!(sub.columns(), df.columns());
    let (_, income) = sub.get_column("income").unwrap();
    assert_eq!(float_of(&income[0]), Some(3.5));
    assert_eq!(float_of(&income[1]), Some(10.0));
    let (_, ids) = sub.get_column("ids").unwrap();
    assert!(matches!(ids[0], DataTypeValue::Id(0)) && matches!(ids[1], DataTypeValue::Id(1)));
    assert_eq!(df.get_rows_as_df(&vec![0, 3]).err(), Some(FrameError::RowOutOfRange));
}

#[test]
fn remove_column_keeps_the_order_of_the_others() {
    let mut df = small_frame();
    df.insert_column("z", &vec![text("a"), text("b"), text("c")], &DataType::String).unwrap();
    assert_eq!(df.remove_column("location"), Ok(()));
    assert_eq!(df.columns(), vec!["ids", "income", "z"]);
    assert_eq!(df.remove_column("ids"), Err(FrameError::ReservedColumn));
    assert_eq!(df.remove_column("location"), Err(FrameError::UnknownColumn));
}

#[test]
fn modify_and_read_cells() {
    let mut df = small_frame();
    assert_eq!(df.modify_cell("income", 1, DataTypeValue::Float(7.0)), Ok(()));
    assert_eq!(float_of(df.get_cell_value("income", 1).unwrap()), Some(7.0));
    assert_eq!(df.modify_cell("income", 1, text("x")), Err(FrameError::TypeMismatch));
    assert_eq!(df.modify_cell("income", 3, DataTypeValue::Null), Err(FrameError::RowOutOfRange));
    assert_eq!(df.modify_cell("ids", 0, DataTypeValue::Id(5)), Err(FrameError::ReservedColumn));
    assert_eq!(df.get_cell_value("income", 3).err(), Some(FrameError::RowOutOfRange));
}

#[test]
fn test_convert_column_values_to_string() {
    let mut df = small_frame();
    let render = |x: &f32| x.to_string();
    df.convert_column_values_to_string("income", &render).unwrap();
    let (dtype, values) = df.get_column("income").unwrap();
    assert_eq!(*dtype, DataType::String);
    assert!(values.iter().all(|value| {
        matches!(value, DataTypeValue::String(_)) || matches!(value, DataTypeValue::Null)
    }));
    assert!(matches!(&values[0], DataTypeValue::String(s) if s == "10"));
    assert!(matches!(&values[2], DataTypeValue::String(s) if s == "3.5"));
    assert!(matches!(values[1], DataTypeValue::Null));
    assert_eq!(df.categorical_columns(), vec!["income", "location"]);
    assert!(df.numeric_columns().is_empty());
}

#[test]
fn numeric_and_categorical_columns_in_order() {
    let mut df = small_frame();
    df.insert_column("rooms", &vec![DataTypeValue::Float(1.0), DataTypeValue::Null, DataTypeValue::Float(2.0)], &DataType::Float)
        .unwrap();
    assert_eq!(df.numeric_columns(), vec!["income", "rooms"]);
    assert_eq!(df.categorical_columns(), vec!["location"]);
}

#[test]
fn as_matrix_flattens_float_columns() {
    let mut df: DataFrame<f32> = DataFrame::new();
    df.insert_column("a", &Vec::new(), &DataType::Float).unwrap();
    df.insert_column("b", &Vec::new(), &DataType::Float).unwrap();
    df.insert_row(&vec![entry("a", DataTypeValue::Float(1.0)), entry("b", DataTypeValue::Float(2.0))]).unwrap();
    df.insert_row(&vec![entry("b", DataTypeValue::Float(4.0)), entry("a", DataTypeValue::Float(3.0))]).unwrap();
    let as_number = |i: usize| i as f32;
    assert_eq!(df.as_matrix(false, &as_number).unwrap(), vec![vec![1.0, 2.0], vec![3.0, 4.0]]);
    assert_eq!(df.as_matrix(true, &as_number).unwrap(), vec![vec![0.0, 1.0, 2.0], vec![1.0, 3.0, 4.0]]);
}

#[test]
fn as_matrix_refuses_text_and_nulls() {
    let df = small_frame();
    let as_number = |i: usize| i as f32;
    assert_eq!(df.as_matrix(false, &as_number).err(), Some(FrameError::EncodingRequired));
    let only_income = df.get_columns_as_df(&vec!["income".to_string()]).unwrap();
    assert_eq!(only_income.as_matrix(false, &as_number).err(), Some(FrameError::NullValue));
}

#[test]
fn duplicate_leaves_the_source_alone() {
    let df = small_frame();
    let mut copy = df.duplicate();
    copy.remove_column("income").unwrap();
    assert_eq!(df.columns(), vec!["ids", "income", "location"]);
    assert_eq!(copy.columns(), vec!["ids", "location"]);
    assert_eq!(DataFrame::<f32>::id_column(), "ids");
}

fn record(fields: &[&str]) -> (Vec<String>, Vec<Option<f32>>) {
    let fields: Vec<String> = fields.iter().map(|f| f.to_string()).collect();
    let parsed = fields.iter().map(|f| f.parse::<f32>().ok()).collect();
    (fields, parsed)
}

#[test]
fn insert_record_parses_and_widens_columns() {
    let mut df: DataFrame<f32> = DataFrame::new();
    for name in ["price", "rooms", "label"] {
        df.insert_column(name, &Vec::new(), &DataType::Float).unwrap();
    }
    let render = |x: &f32| x.to_string();
    let (f, p) = record(&["1.5", "", "2"]);
    df.insert_record(&f, &p, &render).unwrap();
    let (f, p) = record(&["2.5", "3", "near bay"]);
    df.insert_record(&f, &p, &render).unwrap();
    assert_eq!(df.len(), 2);
    let (dtype, price) = df.get_column("price").unwrap();
    assert_eq!(*dtype, DataType::Float);
    assert_eq!(price.iter().map(float_of).collect::<Vec<_>>(), vec![Some(1.5), Some(2.5)]);
    let (_, rooms) = df.get_column("rooms").unwrap();
    assert!(matches!(rooms[0], DataTypeValue::Null));
    assert_eq!(float_of(&rooms[1]), Some(3.0));
    // the text field widens the column for good, earlier numbers included
    let (dtype, label) = df.get_column("label").unwrap();
    assert_eq!(*dtype, DataType::String);
    assert!(matches!(&label[0], DataTypeValue::String(s) if s == "2"));
    assert!(matches!(&label[1], DataTypeValue::String(s) if s == "near bay"));
    let (f, p) = record(&["3", "4"]);
    assert_eq!(df.insert_record(&f, &p, &render), Err(FrameError::LengthMismatch));
    let (f, p) = record(&["3", "4", "5"]);
    df.insert_record(&f, &p, &render).unwrap();
    let (_, label) = df.get_column("label").unwrap();
    assert!(matches!(&label[2], DataTypeValue::String(s) if s == "5"));
}

#[test]
fn test_get_columns() {
    let df = small_frame();
    let (column_dtype, column_values) = df.get_column("location").unwrap();
    assert!(column_values.len() == 3);
    assert_eq!(*column_dtype, DataType::String);
    assert!(matches!(&column_values[1], DataTypeValue::String(s) if s == "Oregon"));
}
