use lapce_collab::collab::generate_initial_crdt;
use lapce_collab::crdt::Character;
use lapce_collab::session::{apply_edit, copy_rows, PrevNextCharacter};

fn text(doc: &[Character]) -> String {
    doc.iter().map(|c| c.value).collect()
}

fn pairs(c: &Character) -> Vec<(u32, u32)> {
    c.pos_id.iter().map(|i| (i.number, i.user)).collect()
}

#[test]
fn edit_between_two_characters() {
    let mut rows = generate_initial_crdt("ab".to_string(), 1);
    let nb = PrevNextCharacter { row_prev: 0, col_prev: 0, row_next: 0, col_next: 1, curr_character: 'X' };
    let (doc, content) = apply_edit(&mut rows, nb, 2);
    assert_eq!(content, "aXb");
    assert_eq!(text(&doc), "aXb");
    assert_eq!(pairs(&doc[1]), vec![(1, 1), (1, 2)]);
    assert_eq!(rows.len(), 1);
    assert_eq!(text(&rows[0]), "Xab");
}

#[test]
fn edit_at_the_start() {
    let mut rows = generate_initial_crdt("a\nb".to_string(), 1);
    let nb = PrevNextCharacter {
        row_prev: usize::MAX,
        col_prev: usize::MAX,
        row_next: 0,
        col_next: 0,
        curr_character: '>',
    };
    let (doc, content) = apply_edit(&mut rows, nb, 2);
    assert_eq!(content, ">a\nb");
    assert_eq!(pairs(&doc[0]), vec![(0, 2), (1, 2)]);
    assert_eq!(text(&rows[0]), ">a\n");
    assert_eq!(text(&rows[1]), "b");
}

#[test]
fn edit_at_the_end() {
    let mut rows = generate_initial_crdt("a\nb".to_string(), 1);
    let nb = PrevNextCharacter {
        row_prev: 1,
        col_prev: 0,
        row_next: usize::MAX,
        col_next: usize::MAX,
        curr_character: '!',
    };
    let (doc, content) = apply_edit(&mut rows, nb, 2);
    assert_eq!(content, "a\nb!");
    assert_eq!(pairs(&doc[3]), vec![(4, 2)]);
    assert_eq!(text(&rows[1]), "!b");
}

#[test]
fn edit_in_an_empty_file() {
    let mut rows = generate_initial_crdt(String::new(), 1);
    let nb = PrevNextCharacter {
        row_prev: usize::MAX,
        col_prev: usize::MAX,
        row_next: usize::MAX,
        col_next: usize::MAX,
        curr_character: 'q',
    };
    let (doc, content) = apply_edit(&mut rows, nb, 3);
    assert_eq!(content, "q");
    assert_eq!(pairs(&doc[0]), vec![(1, 3)]);
    assert_eq!(text(&rows[0]), "q");
}

#[test]
fn copies_keep_the_lines() {
    let rows = generate_initial_crdt("xy\nz".to_string(), 1);
    let c = copy_rows(&rows);
    assert_eq!(c.len(), 2);
    assert_eq!(text(&c[0]), "xy\n");
    assert_eq!(pairs(&c[1][0]), pairs(&rows[1][0]));
}
