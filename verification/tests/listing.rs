use envch::listing::list_lines;
use envch::{EnvironmentVariable, List, Scope};

fn ev(name: &str, value: &str, scope: Scope, file: &str) -> EnvironmentVariable {
    EnvironmentVariable::new(name.to_string(), value.to_string(), scope, file.to_string())
}

fn opts(show_declared_in: bool, show_columns: bool) -> List {
    List { show_declared_in, show_path: false, debug: false, show_columns }
}

#[test]
fn getters_give_back_what_was_built() {
    let v = ev("N", "V", Scope::User, "/f");
    assert_eq!(v.get_name(), "N");
    assert_eq!(v.get_value(), "V");
    assert_eq!(v.get_scope(), Scope::User);
    assert_eq!(v.get_declared_in(), "/f");
}

#[test]
fn names_are_padded_by_bytes() {
    let mut v = ev("AB", "1", Scope::System, "/f");
    v.balance_lengths(5);
    assert_eq!(v.get_name(), "AB   ");
    let mut w = ev("\u{e9}", "1", Scope::System, "/f");
    w.balance_lengths(4);
    assert_eq!(w.get_name(), "\u{e9}  ");
    let mut x = ev("A", "1", Scope::System, "/etc");
    x.balance_lengths_with_declared(3, 6);
    assert_eq!(x.get_name(), "A  ");
    assert_eq!(x.get_declared_in(), "/etc  ");
    assert_eq!(x.get_value(), "1");
}

#[test]
fn line_without_colours() {
    let v = ev("NAME", "value", Scope::System, "/etc/environment");
    assert_eq!(v.format_line(opts(false, false), false), "NAME = value");
    assert_eq!(v.format_line(opts(true, false), false), "/etc/environment NAME = value");
}

#[test]
fn line_with_colours() {
    let v = ev("NAME", "value", Scope::System, "/etc/environment");
    assert_eq!(
        v.format_line(opts(false, false), true),
        "\x1b[38;2;124;171;230mNAME \x1b[38;5;8m=\x1b[38;5;15m value"
    );
    let u = ev("U", "1", Scope::User, "/p");
    assert_eq!(
        u.format_line(opts(true, false), true),
        "\x1b[38;2;116;184;164m/p \x1b[38;2;220;222;89mU \x1b[38;5;8m= \x1b[38;5;15m1"
    );
    let t = ev("T", "2", Scope::Terminal, "/t");
    assert_eq!(
        t.format_line(opts(false, false), true),
        "\x1b[38;2;163;113;217mT \x1b[38;5;8m=\x1b[38;5;15m 2"
    );
}

#[test]
fn listing_with_column_titles() {
    let vars = vec![
        ev("A", "1", Scope::System, "/etc/environment"),
        ev("LONGNAME", "v", Scope::User, "/etc/profile.d/x.sh"),
    ];
    let lines = list_lines(vars, opts(false, true), false);
    assert_eq!(
        lines,
        vec![
            "\x1b[4mName\x1b[24m       \x1b[4mValue\x1b[24m".to_string(),
            "A        = 1".to_string(),
            "LONGNAME = v".to_string(),
        ]
    );
}

#[test]
fn listing_with_files_and_column_titles() {
    let vars = vec![
        ev("NAME", "1", Scope::System, "/etc/environment"),
        ev("B", "2", Scope::User, "/etc/profile.d/xy.sh"),
    ];
    let lines = list_lines(vars, opts(true, true), false);
    assert_eq!(
        lines,
        vec![
            "\x1b[4mDeclared in\x1b[24m          \x1b[4mName\x1b[24m   \x1b[4mValue\x1b[24m".to_string(),
            "/etc/environment     NAME = 1".to_string(),
            "/etc/profile.d/xy.sh B    = 2".to_string(),
        ]
    );
}

#[test]
fn listing_without_titles_and_empty_listing() {
    let vars = vec![ev("X", "1", Scope::Terminal, "/t"), ev("YY", "2", Scope::Terminal, "/t")];
    assert_eq!(list_lines(vars, opts(false, false), false), vec!["X  = 1".to_string(), "YY = 2".to_string()]);
    assert!(list_lines(vec![], opts(true, true), true).is_empty());
}

#[test]
fn short_names_take_titles_unpadded() {
    let vars = vec![ev("ABC", "1", Scope::System, "/etc/environment")];
    assert_eq!(
        list_lines(vars, opts(false, true), false),
        vec!["\x1b[4mName\x1b[24m   \x1b[4mValue\x1b[24m".to_string(), "ABC = 1".to_string()]
    );
    let short_file = vec![ev("ABCD", "1", Scope::System, "/short")];
    assert_eq!(
        list_lines(short_file, opts(true, true), false),
        vec![
            "\x1b[4mDeclared in\x1b[24m \x1b[4mName\x1b[24m   \x1b[4mValue\x1b[24m".to_string(),
            "/short ABCD = 1".to_string(),
        ]
    );
}

#[test]
fn listed_names_line_up() {
    let vars = vec![
        ev("\u{e9}\u{e9}", "1", Scope::System, "/e"),
        ev("ABCDE", "2", Scope::System, "/e"),
    ];
    let lines = list_lines(vars, opts(false, false), false);
    assert_eq!(lines, vec!["\u{e9}\u{e9}  = 1".to_string(), "ABCDE = 2".to_string()]);
    assert_eq!(lines[0].find('=').unwrap(), lines[1].find('=').unwrap());
}

#[test]
fn scopes_read_from_words() {
    assert_eq!(Scope::parse("System"), Ok(Scope::System));
    assert_eq!(Scope::parse("TERMINAL"), Ok(Scope::Terminal));
    assert_eq!(Scope::parse("user"), Ok(Scope::User));
    assert_eq!(Scope::parse("usr"), Err("usr".to_string()));
    assert_eq!("uSeR".parse::<Scope>(), Ok(Scope::User));
    assert_eq!("\u{212a}".parse::<Scope>(), Err("\u{212a}".to_string()));
}

#[test]
fn scope_words_read_back() {
    for s in [Scope::System, Scope::User, Scope::Terminal] {
        assert_eq!(Scope::parse(&s.to_string()), Ok(s));
    }
    assert_eq!(Scope::System.to_string(), "system");
    assert_eq!(Scope::User.to_string(), "user");
    assert_eq!(Scope::Terminal.to_string(), "terminal");
}

#[test]
fn scope_colours() {
    assert_eq!(Scope::System.color(), (124, 171, 230));
    assert_eq!(Scope::User.color(), (220, 222, 89));
    assert_eq!(Scope::Terminal.color(), (163, 113, 217));
}
