use cch23::elves::{count_elfs, count_matches, shelf_windows_in_bounds, ElfCounts};

#[test]
fn elf_count_test() {
    let data = "The mischievous elf peeked out from behind the toy workshop,
        and another elf joined in the festive dance.
        Look, there is also an elf on that shelf!";
    let expected = 4;
    assert!(shelf_windows_in_bounds(data));
    assert_eq!(count_elfs(data).elfs, expected);
}

#[test]
fn elf_shelf_count_test() {
    let data = "there is an elf on a shelf on an elf.
      there is also another shelf in Belfast.";
    let expected = ElfCounts {
        elfs: 5,
        elf_shelves: 1,
        elf_not_shelves: 1,
    };
    assert!(shelf_windows_in_bounds(data));
    assert_eq!(count_elfs(data), expected);
}

#[test]
fn overlapping_elf_on_a_shelf_counts_once() {
    // The second "elf on a shelf" begins inside the first one.
    let data = "an elf on a shelf on a shelf";
    let counts = count_elfs(data);
    assert_eq!(counts.elf_shelves, 1);
    assert_eq!(counts.elfs, 3);
    assert_eq!(counts.elf_not_shelves, 0);
}

#[test]
fn text_without_elves() {
    let counts = count_elfs("");
    assert_eq!(counts, ElfCounts { elfs: 0, elf_shelves: 0, elf_not_shelves: 0 });
    let counts = count_elfs("nothing to see here");
    assert_eq!(counts, ElfCounts { elfs: 0, elf_shelves: 0, elf_not_shelves: 0 });
}

#[test]
fn shelf_too_close_to_the_start() {
    assert!(!shelf_windows_in_bounds("a shelf"));
    assert!(!shelf_windows_in_bounds("shelf"));
    assert!(shelf_windows_in_bounds("123456789shelf"));
    assert_eq!(count_elfs("123456789shelf").elf_not_shelves, 1);
}

#[test]
fn shelf_window_inside_a_character() {
    // "é" takes two bytes; the nine bytes before the shelf start inside it.
    assert!(!shelf_windows_in_bounds("é12345678shelf"));
    assert!(shelf_windows_in_bounds("é123456789shelf"));
    assert_eq!(count_elfs("é123456789shelf").elf_not_shelves, 1);
}

#[test]
fn matches_do_not_overlap() {
    assert_eq!(count_matches(b"aaaa", b"aa"), 2);
    assert_eq!(count_matches(b"aaa", b"aa"), 1);
    assert_eq!(count_matches(b"elfelf", b"elf"), 2);
    assert_eq!(count_matches(b"el", b"elf"), 0);
}

#[test]
fn elves_inside_words_are_counted() {
    let data = "shelf elf Belfast elfelf";
    assert_eq!(count_matches(data.as_bytes(), b"elf"), 5);
    let counts = count_elfs("elf on a shelf elf on a shelf, and an elf");
    assert!(counts.elf_shelves <= counts.elfs);
    assert_eq!(counts.elf_shelves, 2);
    assert_eq!(counts.elfs, 5);
}
