use talk_protocol::database::{ColumnInt, DBTable, Ty};

#[test]
fn it_works() {
    assert_eq!(2 + 2, 4);
}

#[test]
fn new_table_is_empty() {
    let t = DBTable::new(String::from("<Int> claims <Int> is <Int>"), vec![Ty::Int, Ty::Int, Ty::Int]);
    assert_eq!(t.name(), "<Int> claims <Int> is <Int>");
    assert_eq!(t.row_count(), 0);
    assert_eq!(t.column_count(), 3);
    let _c = ColumnInt::from(Ty::Int);
}
