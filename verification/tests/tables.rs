use describe::dataset::Dataset;
use describe::feature::{Entry, Feature, Metric};
use describe::number::Number;
use describe::source::{columns_of, read_file, DataAccessError};
use describe::table::{are_printable, can_build_table, is_printable};

fn number(x: f32) -> Number {
    Number::new(x.to_bits())
}

fn cell(text: &str) -> Entry {
    Entry {
        text: text.to_string(),
        reading: text.trim().parse::<f32>().ok().map(number),
    }
}

fn float(n: Number) -> f32 {
    f32::from_bits(n.bits())
}

fn mean_of(f: &Feature) -> Number {
    match f.mean_terms() {
        Some(terms) => {
            let sum = terms.iter().fold(0.0f32, |acc, x| acc + float(*x));
            number(sum / f.count() as f32)
        }
        None => f.memo(Metric::Mean).unwrap_or(Number::nan()),
    }
}

fn std_of(f: &Feature, mean: Number) -> Number {
    match f.std_terms() {
        Some(terms) => {
            let m = float(mean);
            let squares = terms.iter().fold(0.0f32, |acc, x| acc + (float(*x) - m).powi(2));
            number((squares / f.count() as f32).sqrt())
        }
        None => f.memo(Metric::Std).unwrap_or(Number::nan()),
    }
}

fn moments(dataset: &Dataset) -> Vec<(Number, Number)> {
    (0..dataset.len())
        .map(|i| {
            let mean = mean_of(dataset.feature(i));
            (mean, std_of(dataset.feature(i), mean))
        })
        .collect()
}

fn display(dataset: &mut Dataset) -> describe::dataset::Summary {
    let moments = moments(dataset);
    dataset.display(&moments)
}

fn column(name: &str, cells: &[&str]) -> (String, Vec<Entry>) {
    (name.to_string(), cells.iter().map(|c| cell(c)).collect())
}

fn strings(texts: &[&str]) -> Vec<String> {
    texts.iter().map(|t| t.to_string()).collect()
}

fn three_columns() -> Dataset {
    let ages: Vec<String> = (0..30).map(|i| (20 + i).to_string()).collect();
    let ages: Vec<&str> = ages.iter().map(|s| s.as_str()).collect();
    let houses: Vec<&str> = (0..30).map(|i| if i % 2 == 0 { "north" } else { "south" }).collect();
    let names: Vec<String> = (0..30).map(|i| format!("name{}", i)).collect();
    let names: Vec<&str> = names.iter().map(|s| s.as_str()).collect();
    Dataset::from_file(vec![column("age", &ages), column("house", &houses), column("name", &names)])
}

#[test]
fn one_continuous_one_discrete_one_text_column() {
    let mut dataset = three_columns();
    assert_eq!(dataset.len(), 3);
    let summary = display(&mut dataset);
    assert_eq!(summary.continuous, strings(&["age"]));
    assert_eq!(summary.discreat, strings(&["house"]));
    assert_eq!(summary.different_values, vec![2]);
    assert_eq!(summary.metrics.len(), 7);
    let order = [
        Metric::Mean,
        Metric::Std,
        Metric::Quart,
        Metric::Median,
        Metric::LastQuart,
        Metric::Min,
        Metric::Max,
    ];
    for (row, metric) in summary.metrics.iter().zip(order.iter()) {
        assert_eq!(row.metric, *metric);
        assert_eq!(row.cells.len(), 1);
    }
    let ages: Vec<f32> = (0..30).map(|i| (20 + i) as f32).collect();
    let mean = ages.iter().fold(0.0f32, |acc, x| acc + x) / 30.0;
    let std = (ages.iter().fold(0.0f32, |acc, x| acc + (x - mean).powi(2)) / 30.0).sqrt();
    assert_eq!(mean, 34.5);
    assert_eq!(summary.metrics[0].cells, vec![number(mean)]);
    assert_eq!(summary.metrics[1].cells, vec![number(std)]);
    assert_eq!(summary.metrics[2].cells, vec![number(27.0)]);
    assert_eq!(summary.metrics[3].cells, vec![number(35.0)]);
    assert_eq!(summary.metrics[4].cells, vec![number(43.0)]);
    assert_eq!(summary.metrics[5].cells, vec![number(20.0)]);
    assert_eq!(summary.metrics[6].cells, vec![number(49.0)]);
    for metric in order {
        assert_eq!(dataset.feature(1).memo(metric), None);
        assert_eq!(dataset.feature(2).memo(metric), None);
        assert!(dataset.feature(0).memo(metric).is_some());
    }
}

#[test]
fn a_table_of_twenty_rows() {
    let mut text = String::from("n,d,s\n");
    for i in 1..=20 {
        text.push_str(&format!("{},a,w{}\n", i, i));
    }
    let columns = read_file(text.as_bytes()).unwrap();
    let columns = columns
        .into_iter()
        .map(|(name, raw)| (name, raw.iter().map(|t| cell(t)).collect()))
        .collect();
    let mut dataset = Dataset::from_file(columns);
    let summary = display(&mut dataset);
    assert_eq!(summary.continuous, strings(&["n"]));
    assert_eq!(summary.discreat, strings(&["d"]));
    assert_eq!(summary.different_values, vec![1]);
    for row in summary.metrics.iter() {
        assert_eq!(row.cells.len(), 1);
    }
    assert_eq!(summary.metrics[0].cells, vec![number(10.5)]);
    assert_eq!(summary.metrics[2].cells, vec![number(6.0)]);
    assert_eq!(summary.metrics[3].cells, vec![number(11.0)]);
    assert_eq!(summary.metrics[4].cells, vec![number(16.0)]);
    assert_eq!(summary.metrics[5].cells, vec![number(1.0)]);
    assert_eq!(summary.metrics[6].cells, vec![number(20.0)]);
}

#[test]
fn numbers_handed_in_are_memoized_once() {
    let mut dataset = three_columns();
    assert_eq!(dataset.get_mean(0, number(1.0)), Some(number(1.0)));
    assert_eq!(dataset.get_mean(0, number(2.0)), Some(number(1.0)));
    assert_eq!(dataset.get_std(0, number(3.0), number(4.0)), Some(number(4.0)));
    assert_eq!(dataset.get_mean(1, number(1.0)), None);
    assert_eq!(dataset.get_std(2, number(1.0), number(1.0)), None);
    let pairs = vec![(number(9.0), number(9.0)); 3];
    let summary = dataset.display(&pairs);
    assert_eq!(summary.metrics[0].cells, vec![number(1.0)]);
    assert_eq!(summary.metrics[1].cells, vec![number(4.0)]);
}

#[test]
fn columns_keep_their_order() {
    let mut dataset = Dataset::from_file(vec![
        column("b", &["4", "3", "2", "1"]),
        column("empty", &["", "", "", ""]),
        column("a", &["10", "20", "30", "40", ""]),
    ]);
    assert_eq!(dataset.feature(0).name(), "b");
    assert_eq!(dataset.feature(1).name(), "empty");
    assert_eq!(dataset.feature(2).name(), "a");
    let summary = display(&mut dataset);
    assert_eq!(summary.continuous, strings(&["b", "a"]));
    for row in summary.metrics.iter() {
        assert_eq!(row.cells.len(), 2);
    }
    assert_eq!(summary.metrics[0].cells, vec![number(2.5), number(25.0)]);
    assert_eq!(summary.discreat, strings(&[]));
    assert_eq!(summary.different_values, vec![]);
    assert_eq!(summary.metrics[2].cells, vec![number(2.0), number(20.0)]);
    assert_eq!(summary.metrics[3].cells, vec![number(3.0), number(30.0)]);
    assert_eq!(summary.metrics[4].cells, vec![number(4.0), number(40.0)]);
    assert_eq!(summary.metrics[5].cells, vec![number(1.0), number(10.0)]);
    assert_eq!(summary.metrics[6].cells, vec![number(4.0), number(40.0)]);
}

#[test]
fn compute_memoizes_and_may_be_repeated() {
    let mut dataset = Dataset::from_file(vec![column("x", &["5", "1", "4", "2", "3"])]);
    assert_eq!(dataset.feature(0).memo(Metric::Median), None);
    let pairs = moments(&dataset);
    dataset.compute(&pairs);
    assert_eq!(dataset.feature(0).memo(Metric::Mean), Some(number(3.0)));
    assert_eq!(dataset.feature(0).memo(Metric::Std), Some(number(2.0f32.sqrt())));
    assert_eq!(dataset.feature(0).memo(Metric::Min), Some(number(1.0)));
    assert_eq!(dataset.feature(0).memo(Metric::Max), Some(number(5.0)));
    assert_eq!(dataset.feature(0).memo(Metric::Quart), Some(number(2.0)));
    assert_eq!(dataset.feature(0).memo(Metric::Median), Some(number(4.0)));
    assert_eq!(dataset.feature(0).memo(Metric::LastQuart), Some(number(5.0)));
    dataset.compute(&vec![(number(0.0), number(0.0))]);
    assert_eq!(dataset.feature(0).memo(Metric::Mean), Some(number(3.0)));
    assert_eq!(dataset.feature(0).memo(Metric::Median), Some(number(4.0)));
    let first = display(&mut dataset);
    let second = display(&mut dataset);
    assert_eq!(first.metrics[0].cells, second.metrics[0].cells);
    assert_eq!(first.metrics[3].cells, second.metrics[3].cells);
}

#[test]
fn a_table_without_columns() {
    let mut dataset = Dataset::from_file(Vec::new());
    assert_eq!(dataset.len(), 0);
    let summary = display(&mut dataset);
    assert!(summary.continuous.is_empty());
    assert!(summary.discreat.is_empty());
    assert_eq!(summary.metrics.len(), 7);
}

#[test]
fn short_continuous_columns_are_computed_too() {
    let mut dataset = Dataset::from_file(vec![column("x", &["1", "2", "3.5", ""]), column("y", &["a"])]);
    let summary = display(&mut dataset);
    assert_eq!(summary.continuous, strings(&["x"]));
    for row in summary.metrics.iter() {
        assert_eq!(row.cells.len(), 1);
    }
    assert_eq!(summary.metrics[0].cells, vec![number(6.5f32 / 3.0)]);
    assert_eq!(summary.metrics[2].cells, vec![number(2.0)]);
    assert_eq!(summary.metrics[3].cells, vec![number(3.5)]);
    assert_eq!(summary.metrics[4].cells, vec![number(3.5)]);
    assert_eq!(summary.metrics[5].cells, vec![number(1.0)]);
    assert_eq!(summary.metrics[6].cells, vec![number(3.5)]);
    assert_eq!(dataset.feature(0).name(), "x");
    assert_eq!(dataset.feature(0).count(), 3);
    assert_eq!(dataset.feature(1).count(), 1);
    assert_eq!(dataset.feature(1).discreat_number(), None);
}

#[test]
fn read_file_turns_rows_into_columns() {
    let data = b"city,pop,note\nBoston,4628910,\nConcord,42695,\"a, b\"\n";
    let columns = read_file(data).unwrap();
    assert_eq!(
        columns,
        vec![
            ("city".to_string(), strings(&["Boston", "Concord"])),
            ("pop".to_string(), strings(&["4628910", "42695"])),
            ("note".to_string(), strings(&["", "a, b"])),
        ]
    );
}

#[test]
fn read_file_of_a_header_alone_and_of_nothing() {
    let columns = read_file(b"a,b\n").unwrap();
    assert_eq!(columns, vec![("a".to_string(), Vec::new()), ("b".to_string(), Vec::new())]);
    assert_eq!(read_file(b"").unwrap(), Vec::new());
}

#[test]
fn read_file_rejects_uneven_rows() {
    assert!(matches!(read_file(b"a,b\n1,2\n3\n"), Err(DataAccessError::Parse(_))));
    assert!(matches!(read_file(b"a,b\n1,2,3\n"), Err(DataAccessError::Parse(_))));
}

#[test]
fn read_file_rejects_text_that_is_not_utf8() {
    assert!(matches!(read_file(b"a,b\n\xff,2\n"), Err(DataAccessError::Parse(_))));
    assert!(matches!(read_file(b"\xff,b\n1,2\n"), Err(DataAccessError::Parse(_))));
}

#[test]
fn columns_of_names_the_first_uneven_row() {
    let headers = strings(&["a", "b"]);
    let rows = vec![strings(&["1", "2"]), strings(&["3"]), strings(&["4", "5", "6"])];
    assert!(matches!(columns_of(&headers, &rows), Err(DataAccessError::Width(1))));
    let long = vec![strings(&["1", "2", "3"])];
    assert!(matches!(columns_of(&headers, &long), Err(DataAccessError::Width(0))));
}

#[test]
fn columns_of_even_rows() {
    let headers = strings(&["a", "b"]);
    let rows = vec![strings(&["1", "2"]), strings(&["3", "4"]), strings(&["5", "6"])];
    let columns = columns_of(&headers, &rows).unwrap();
    assert_eq!(
        columns,
        vec![("a".to_string(), strings(&["1", "3", "5"])), ("b".to_string(), strings(&["2", "4", "6"]))]
    );
    assert_eq!(columns_of(&Vec::new(), &Vec::new()).unwrap(), Vec::new());
}

#[test]
fn a_file_from_bytes_to_tables() {
    let mut text = String::from("height,team,id\n");
    for i in 0..30 {
        let team = if i % 4 == 0 { "a" } else { "b" };
        text.push_str(&format!("{}.5,{},p{}\n", 150 + i, team, i));
    }
    let columns = read_file(text.as_bytes()).unwrap();
    let columns = columns
        .into_iter()
        .map(|(name, raw)| (name, raw.iter().map(|t| cell(t)).collect()))
        .collect();
    let mut dataset = Dataset::from_file(columns);
    let summary = display(&mut dataset);
    assert_eq!(summary.continuous, strings(&["height"]));
    assert_eq!(summary.metrics[0].cells, vec![number(165.0)]);
    assert_eq!(summary.discreat, strings(&["team"]));
    assert_eq!(summary.different_values, vec![2]);
    assert_eq!(summary.metrics[2].cells, vec![number(157.5)]);
    assert_eq!(summary.metrics[3].cells, vec![number(165.5)]);
    assert_eq!(summary.metrics[4].cells, vec![number(173.5)]);
    assert_eq!(summary.metrics[5].cells, vec![number(150.5)]);
    assert_eq!(summary.metrics[6].cells, vec![number(179.5)]);
}

#[test]
fn build_table_keeps_rows_and_cells_in_order() {
    let rows = vec![
        ("Metrics".to_string(), strings(&["age", "height"])),
        ("Mean".to_string(), strings(&["34.5", "165.5"])),
        ("Max".to_string(), strings(&[])),
    ];
    let table = describe::table::build_table(&rows);
    assert_eq!(table.len(), 3);
    let texts: Vec<Vec<String>> = (0..table.len())
        .map(|i| table.get_row(i).unwrap().iter().map(|c| c.get_content()).collect())
        .collect();
    assert_eq!(
        texts,
        vec![strings(&["Metrics", "age", "height"]), strings(&["Mean", "34.5", "165.5"]), strings(&["Max"])]
    );
    assert_eq!(describe::table::build_table(&Vec::new()).len(), 0);
}

#[test]
fn build_row_puts_the_label_first() {
    let content = vec![prettytable::Cell::new("1"), prettytable::Cell::new("")];
    let row = describe::table::build_row("Min", content);
    assert_eq!(row.len(), 3);
    assert_eq!(row.get_cell(0).unwrap().get_content(), "Min");
    assert_eq!(row.get_cell(1).unwrap().get_content(), "1");
    assert_eq!(row.get_cell(2).unwrap().get_content(), "");
    let row = describe::table::text_row("50%", &strings(&["3", "30"]));
    let texts: Vec<String> = row.iter().map(|c| c.get_content()).collect();
    assert_eq!(texts, strings(&["50%", "3", "30"]));
}

#[test]
fn labels_of_the_tables() {
    assert_eq!(describe::dataset::Summary::header_label(), "Metrics");
    assert_eq!(describe::dataset::Summary::different_values_label(), "Number of different values");
}

#[test]
fn texts_with_an_escape_character_are_told_apart() {
    assert!(is_printable(""));
    assert!(is_printable("plain text, 1.5"));
    assert!(!is_printable("\u{1b}[\u{644}\u{627}\u{644}\u{627}"));
    assert!(!is_printable("red\u{1b}[0m"));
    assert!(are_printable(&strings(&["a", "b"])));
    assert!(!are_printable(&strings(&["a", "\u{1b}"])));
    let rows = vec![("Metrics".to_string(), strings(&["a"])), ("Mean".to_string(), strings(&["1"]))];
    assert!(can_build_table(&rows));
    let label = vec![("\u{1b}".to_string(), strings(&["a"]))];
    assert!(!can_build_table(&label));
    let cells = vec![("Metrics".to_string(), strings(&["a", "b\u{1b}[m"]))];
    assert!(!can_build_table(&cells));
    assert!(can_build_table(&Vec::new()));
}
