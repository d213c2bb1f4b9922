use word_frequency_analysis::tables::{
    combined_file_map_to_csv_string_usize, combined_map_to_csv_string, csv_row, format_count,
    tf_idf_table_header, vec_to_csv_string,
};

fn strings(words: &[&str]) -> Vec<String> {
    words.iter().map(|w| w.to_string()).collect()
}

fn entries(pairs: &[(&str, usize)]) -> Vec<(String, usize)> {
    pairs.iter().map(|p| (p.0.to_string(), p.1)).collect()
}

fn word_table(rows: &[(&str, &[(&str, usize)])]) -> Vec<(String, Vec<(String, usize)>)> {
    rows.iter().map(|r| (r.0.to_string(), entries(r.1))).collect()
}

#[test]
fn format_count_exact() {
    assert_eq!(format_count(0), "0");
    assert_eq!(format_count(7), "7");
    assert_eq!(format_count(10), "10");
    assert_eq!(format_count(90210), "90210");
}

#[test]
fn csv_row_joins_cells() {
    assert_eq!(csv_row(&strings(&["a", "b", "c"])), "a,b,c\n");
    assert_eq!(csv_row(&strings(&["solo"])), "solo\n");
    assert_eq!(csv_row(&Vec::new()), "\n");
}

#[test]
fn vec_to_csv_exact() {
    let s = vec_to_csv_string(&entries(&[("cat", 3), ("dog", 1)]));
    assert_eq!(s, "word,frequency\ncat,3\ndog,1\n");
}

#[test]
fn combined_map_canonical_table() {
    let data = word_table(&[
        ("apple", &[("f1", 2), ("f2", 1)]),
        ("Zebra", &[("f1", 1)]),
        ("3", &[("f2", 10)]),
    ]);
    let s = combined_map_to_csv_string(&data, &strings(&["apple"]));
    assert_eq!(
        s,
        "Words,f1,f2,Total\n\
         apple,2,1,3\n\
         Zebra,1,0,1\n\
         3,0,10,10\n"
    );
}

#[test]
fn combined_map_lowercase_before_numeric() {
    let data = word_table(&[("9", &[("f", 100)]), ("word", &[("f", 1)])]);
    let s = combined_map_to_csv_string(&data, &Vec::new());
    assert_eq!(s, "Words,f,Total\nword,1,1\n9,100,100\n");
}

#[test]
fn combined_map_is_order_independent() {
    let a = word_table(&[
        ("apple", &[("f1", 2), ("f2", 1)]),
        ("Zebra", &[("f1", 1)]),
        ("3", &[("f2", 10)]),
    ]);
    let b = word_table(&[
        ("3", &[("f2", 10)]),
        ("apple", &[("f2", 1), ("f1", 2)]),
        ("Zebra", &[("f1", 1)]),
    ]);
    let phrases = strings(&["apple"]);
    assert_eq!(
        combined_map_to_csv_string(&a, &phrases),
        combined_map_to_csv_string(&b, &phrases)
    );
}

#[test]
fn combined_file_map_exact() {
    let data = word_table(&[("f1", &[("dog", 2)]), ("f2", &[("dog", 1), ("cat", 5)])]);
    let s = combined_file_map_to_csv_string_usize(
        &strings(&["f1", "f2"]),
        &strings(&["dog", "cat"]),
        &data,
        &Vec::new(),
    );
    assert_eq!(s, "Words,f1,f2,Total\ncat,0,5,5\ndog,2,1,3\n");
}

#[test]
fn tf_idf_header_with_chapters() {
    let s = tf_idf_table_header(&strings(&["A", "B"]), &vec![2, 3]);
    assert_eq!(
        s,
        "Words,A _ #1,A _ #2,A_Total,B _ #1,B _ #2,B _ #3,B_Total,Corpus Total\n"
    );
}
