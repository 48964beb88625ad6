use ski_eval::table::Table;
use ski_eval::zoom::KnownColor;

#[test]
fn the_first_entry_counts() {
    let entry = |node, color| KnownColor { node, color };
    let mut table = Table::new();
    assert_eq!(table.find(3), None);
    table.push(entry(3, Some(true)));
    table.push(entry(5, None));
    table.push(entry(3, Some(false)));
    assert_eq!(table.len(), 3);
    assert_eq!(table.find(3), Some(entry(3, Some(true))));
    assert_eq!(table.find(5), Some(entry(5, None)));
    assert_eq!(table.find(4), None);
    assert_eq!(table.item(2), entry(3, Some(false)));
    table.clear();
    assert_eq!(table.len(), 0);
    assert_eq!(table.find(3), None);
}
