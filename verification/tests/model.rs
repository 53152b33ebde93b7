use hybrid_stages::model::{apply_model, exclude_model, read_model, Assignment};

fn a(offset: usize, value: u8) -> Assignment {
    Assignment { offset, value }
}

#[test]
fn reads_a_printed_model() {
    assert_eq!(
        read_model("k!0 -> #x41\nk!10 -> #xff\n"),
        Some(vec![a(0, 0x41), a(10, 0xff)])
    );
}

#[test]
fn reads_like_the_standard_parsers() {
    assert_eq!(read_model(""), Some(vec![]));
    assert_eq!(read_model("k!k!7 -> #x#xA"), Some(vec![a(7, 10)]));
    assert_eq!(read_model("+7 -> +0a\r\n8 -> F"), Some(vec![a(7, 10), a(8, 15)]));
    assert_eq!(read_model("0007 -> 00000ff"), Some(vec![a(7, 255)]));
}

#[test]
fn refuses_what_is_no_assignment() {
    let bad = [
        "k!0", "k!0 -> ", " -> #x41", "k!0 -> #x100", "k!0 -> #x4g", "k!x -> #x41",
        "k!0 -> #x41 -> #x42", "k!0->#x41", "\n", "k!-1 -> #x41", "k!0 -> #x41\r",
        "k!18446744073709551616 -> #x41", "k!+ -> #x41",
    ];
    for text in bad {
        assert_eq!(read_model(text), None, "{:?}", text);
    }
    assert_eq!(
        read_model("k!18446744073709551615 -> #x41"),
        Some(vec![a(usize::MAX, 0x41)])
    );
}

#[test]
fn agrees_with_the_standard_library_on_odd_lines() {
    let texts = [
        "1 -> -> 2", "1 ->  -> 2", " -> -> 1", "1 -> 2\r\n\r\n", "1 -> 2\n3 -> 4", "1 -> 2\r\r\n",
        "12 -> ab\n13 -> cD\r\n", "k! -> 1", "k!1 -> #x", "\u{e9} -> 1", "1 -> 2 ", " 1 -> 2",
    ];
    for text in texts {
        let expected: Option<Vec<Assignment>> = text
            .lines()
            .map(|l| match l.split(" -> ").collect::<Vec<_>>().as_slice() {
                [o, v] => {
                    let offset = o.trim_start_matches("k!").parse::<usize>().ok()?;
                    let value = u8::from_str_radix(v.trim_start_matches("#x"), 16).ok()?;
                    Some(Assignment { offset, value })
                }
                _ => None,
            })
            .collect();
        assert_eq!(read_model(text), expected, "{:?}", text);
    }
}

#[test]
fn a_model_replaces_the_bytes_it_names() {
    let seed = vec![1, 2, 3, 4];
    assert_eq!(
        apply_model(&seed, &vec![a(0, 9), a(25, 7), a(20, 8)]),
        Some(vec![9, 2, 8, 4])
    );
    assert_eq!(apply_model(&seed, &vec![]), Some(seed.clone()));
}

#[test]
fn a_model_past_the_end_is_refused() {
    let seed = vec![1, 2, 3, 4];
    assert_eq!(apply_model(&seed, &vec![a(39, 7)]), Some(vec![1, 2, 3, 7]));
    assert_eq!(apply_model(&seed, &vec![a(40, 7)]), None);
    assert_eq!(apply_model(&vec![], &vec![a(0, 7)]), None);
}

#[test]
fn the_clause_names_each_variable() {
    let clause = exclude_model(&vec![a(0, 65), a(120, 255)]);
    let clause: Vec<(&str, u8)> = clause.iter().map(|d| (d.variable.as_str(), d.value)).collect();
    assert_eq!(clause, vec![("k!0", 65), ("k!120", 255)]);
    assert!(exclude_model(&vec![]).is_empty());
}
