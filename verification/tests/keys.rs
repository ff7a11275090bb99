use fejdit::clean::KeyCount;
use fejdit::search::{keys_report, Filter};
use fejdit::survey::KeyRow;

fn row(name: &str, instances: usize) -> KeyRow {
    KeyRow { prefab: instances as i32, name: name.to_string(), instances, keys: vec![KeyCount { name: "k".to_string(), count: 1 }] }
}

#[test]
fn keys_rows_come_most_instances_first_then_by_name() {
    let rows = vec![row("Beech", 3), row("Stone", 9), row("Birch", 3), row("Wood", 1), row("Amber", 3)];
    let out = keys_report(rows, 2, None);
    let names: Vec<&str> = out.iter().map(|r| r.name.as_str()).collect();
    assert_eq!(names, vec!["Stone", "Amber", "Beech", "Birch"]);
}

#[test]
fn keys_rows_pass_the_prefab_filter() {
    let rows = vec![row("Beech", 3), row("Stone", 9), row("Birch", 5)];
    let f = Filter::new(&vec!["b*".to_string()], None).unwrap();
    let out = keys_report(rows, 1, Some(&f));
    let names: Vec<&str> = out.iter().map(|r| r.name.as_str()).collect();
    assert_eq!(names, vec!["Birch", "Beech"]);
}
