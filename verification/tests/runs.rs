use todooer::SequentialCount;

#[test]
fn sequential_count_hands_out_runs() {
    let mut c = SequentialCount::new(vec!['a', 'a', 'b', 'c', 'c', 'c', 'a']);
    assert_eq!(c.next(), Some(('a', 2)));
    assert_eq!(c.next(), Some(('b', 1)));
    assert_eq!(c.next(), Some(('c', 3)));
    assert_eq!(c.next(), Some(('a', 1)));
    assert_eq!(c.next(), None);
    assert_eq!(c.next(), None);
}

#[test]
fn sequential_count_of_nothing() {
    let mut c = SequentialCount::new(Vec::new());
    assert_eq!(c.next(), None);
}

#[test]
fn runs_write_back_the_text() {
    let text: Vec<char> = "xxyyyzxx".chars().collect();
    let mut c = SequentialCount::new(text.clone());
    let mut back: Vec<char> = Vec::new();
    while let Some((ch, n)) = c.next() {
        assert!(n >= 1);
        for _ in 0..n {
            back.push(ch);
        }
    }
    assert_eq!(back, text);
}

#[test]
fn sequential_count_is_a_run_length_encoding() {
    let text: Vec<char> = "aaabccdddd".chars().collect();
    let mut c = SequentialCount::new(text);
    let mut out = Vec::new();
    while let Some(p) = c.next() {
        out.push(p);
    }
    assert_eq!(out, vec![('a', 3), ('b', 1), ('c', 2), ('d', 4)]);
}
