use iron_pass::escapes::strip_escapes;
use iron_pass::listing::{parse_list, parse_listing};
use iron_pass::sequences::remove_escape_sequences;

#[test]
fn parse_output() {
    let input = "
            Search Terms: google
            ├── google.com
            │   ├── u1
            │   └── u2
            └── apple.com
                └── u1";
    let list = parse_list(input);
    assert_eq!(list, vec!["google.com/u1", "google.com/u2", "apple.com/u1"])
}

#[test]
fn check_escape_sequence_remove() {
    let input = "This is \x1b[31mred\x1b[0m text";
    assert_eq!(remove_escape_sequences(input), "This is red text")
}

#[test]
fn terminal_stripper_removes_colours() {
    let input = "This is \x1b[31mred\x1b[0m text";
    assert_eq!(strip_escapes(input), "This is red text")
}

#[test]
fn only_colour_and_cursor_sequences_are_removed() {
    assert_eq!(remove_escape_sequences("a\u{7}\tb\r"), "a\u{7}\tb\r");
    assert_eq!(remove_escape_sequences("\x1b[2K\x1b[1;1Hx\x1b[10G"), "x");
    assert_eq!(remove_escape_sequences("lone \x1b here \x1b[31x"), "lone \x1b here \x1b[31x");
    assert_eq!(remove_escape_sequences(""), "");
}

#[test]
fn sequence_closed_by_removal_goes_too() {
    let once = remove_escape_sequences("\x1b[\x1b[31mm!");
    assert_eq!(once, "!");
    assert_eq!(remove_escape_sequences(&once), once);
}

#[test]
fn removing_sequences_twice_is_removing_once() {
    let input = "\x1b[01;34mgoogle.com\x1b[00m\n└── \x1b[1mu1\x1b[0m\tx\r\n";
    let once = remove_escape_sequences(input);
    assert_eq!(once, "google.com\n└── u1\tx\r\n");
    assert_eq!(remove_escape_sequences(&once), once);
}

#[test]
fn tab_indentation_survives_stripping() {
    let raw = "\x1b[1m├── a\x1b[0m\n\t\t\t\t└── x";
    assert_eq!(parse_listing(raw), vec!["a/x"]);
    assert_eq!(parse_listing("a\u{7}"), parse_list("a\u{7}"));
}

#[test]
fn unicode_whitespace_lines_are_blank() {
    assert!(parse_list("\u{a0}").is_empty());
    assert!(parse_list(" \u{2003}\n\u{3000}\u{85}\n\u{a0}\u{a0}").is_empty());
    assert_eq!(parse_list("\u{a0}name"), vec!["name"]);
}

#[test]
fn stripping_twice_is_stripping_once() {
    let input = "\x1b[01;34mgoogle.com\x1b[00m\n└── \x1b[1mu1\x1b[0m\tx\r\n";
    let once = strip_escapes(input);
    assert_eq!(once, "google.com\n└── u1x\n");
    assert_eq!(strip_escapes(&once), once);
}

#[test]
fn plain_text_is_left_alone() {
    let input = "├── caf\u{e9}.com\n│   └── me";
    assert_eq!(strip_escapes(input), input);
}

#[test]
fn indenting_every_line_changes_nothing() {
    let flat = "├── a\n│   └── x\n└── b\n    └── y";
    let indented = "      ├── a\n      │   └── x\n      └── b\n          └── y";
    assert_eq!(parse_list(flat), vec!["a/x", "b/y"]);
    assert_eq!(parse_list(indented), parse_list(flat));
}

#[test]
fn banner_anywhere_changes_nothing() {
    let plain = "  ├── a\n  │   └── x\n  └── b\n      └── y";
    let with_banner = "  ├── a\n  │   └── x\nSearch Terms: whatever\n  └── b\n      └── y";
    let banner_indented = "  ├── a\n        Search Terms: a b\n  │   └── x\n  └── b\n      └── y";
    assert_eq!(parse_list(with_banner), parse_list(plain));
    assert_eq!(parse_list(banner_indented), parse_list(plain));
    assert_eq!(parse_list(plain), vec!["a/x", "b/y"]);
}

#[test]
fn deeper_tree_in_depth_first_order() {
    let input = "\
Search Terms: x
├── work
│   ├── mail
│   │   ├── alice
│   │   └── bob
│   └── vpn
├── home
│   └── wifi
└── bank";
    assert_eq!(
        parse_list(input),
        vec!["work/mail/alice", "work/mail/bob", "work/vpn", "home/wifi", "bank"]
    );
}

#[test]
fn empty_input_gives_nothing() {
    assert!(parse_list("").is_empty());
    assert!(parse_list("   \n\t\n  \r\n").is_empty());
    assert!(parse_list("\n\n").is_empty());
}

#[test]
fn banner_only_gives_nothing() {
    assert!(parse_list("Search Terms: nothing\n").is_empty());
}

#[test]
fn single_leaf_gives_its_name() {
    assert_eq!(parse_list("└── only"), vec!["only"]);
    assert_eq!(parse_list("only"), vec!["only"]);
    assert_eq!(parse_list("   name with spaces   \n"), vec!["name with spaces   "]);
}

#[test]
fn siblings_at_root() {
    assert_eq!(parse_list("├── a\n├── b\n└── c"), vec!["a", "b", "c"]);
}

#[test]
fn ascending_past_the_root_empties_the_stack() {
    // The second line is shallower than the first, which has no parent:
    // the first is closed as a leaf and the stack starts over.
    assert_eq!(parse_list("    └── deep\n└── top"), vec!["deep", "top"]);
}

#[test]
fn crlf_line_endings() {
    let input = "├── a\r\n│   └── x\r\n└── b\r\n";
    assert_eq!(parse_list(input), vec!["a/x", "b"]);
}

#[test]
fn no_break_spaces_and_tabs_are_markup() {
    let input = "├──\u{a0}a\n│\u{a0}\u{a0}\u{a0}└──\u{a0}x\n\t\t\t\t└── y";
    assert_eq!(parse_list(input), vec!["a/x", "a/y"]);
}

#[test]
fn listing_with_colours_is_stripped_first() {
    let raw = "Search Terms: google\n\x1b[01;34m├── \x1b[0mgoogle.com\n│   └── \x1b[1mu1\x1b[0m\n└── apple.com\n";
    assert_eq!(parse_listing(raw), vec!["google.com/u1", "apple.com"]);
}

#[test]
fn two_level_ascent_gives_one_path_per_leaf_line() {
    // Going back up two levels pops only two entries, so the last path keeps
    // a stale parent; there is still one path per leaf line, ending with it.
    let input = "├── a\n│   ├── b\n│   │   └── c\n└── d";
    assert_eq!(parse_list(input), vec!["a/b/c", "a/d"]);
}

#[test]
fn single_entry_after_markup_gives_its_name() {
    assert_eq!(parse_list("│\u{a0}\t└── key file"), vec!["key file"]);
    assert_eq!(parse_list("Search Terms"), vec!["Search Terms"]);
}
