use envch::list_env::{
    can_parse_bash, can_parse_profile_scripts, can_parse_sources, can_parse_system_environment,
    can_parse_zshenv, get_all_environment_variables, get_system_environment_variables,
    get_terminal_environment_variables, get_user_environment_variables, parse_bash, parse_bashrc,
    parse_bash_notes, parse_zshenv, path_variable, profile_script_notes, ProfileScript, Sources,
};
use envch::paths::{bashrc_path, zshenv_path};
use envch::{EnvironmentVariable, Scope};

fn seen(vars: &[EnvironmentVariable]) -> Vec<(String, String, Scope, String)> {
    vars.iter()
        .map(|v| {
            (
                v.get_name().to_string(),
                v.get_value().to_string(),
                v.get_scope(),
                v.get_declared_in().to_string(),
            )
        })
        .collect()
}

fn var(name: &str, value: &str, scope: Scope, file: &str) -> (String, String, Scope, String) {
    (name.to_string(), value.to_string(), scope, file.to_string())
}

fn env(pairs: &[(&str, &str)]) -> Vec<(String, String)> {
    pairs.iter().map(|(a, b)| (a.to_string(), b.to_string())).collect()
}

#[test]
fn system_file_is_read_past_empty_lines() {
    let contents = "A=1\nB=\"two\"\nPATH=/usr/bin\nC=x=y\n\nD=4\n";
    assert!(can_parse_system_environment(contents));
    let vars = get_system_environment_variables(contents);
    assert_eq!(
        seen(&vars),
        vec![
            var("A", "1", Scope::System, "/etc/environment"),
            var("B", "two", Scope::System, "/etc/environment"),
            var("C", "x", Scope::System, "/etc/environment"),
            var("D", "4", Scope::System, "/etc/environment"),
        ]
    );
}

#[test]
fn system_file_lone_quote_value_becomes_empty() {
    let vars = get_system_environment_variables("Q=\"\nR=\"\"");
    assert_eq!(
        seen(&vars),
        vec![
            var("Q", "", Scope::System, "/etc/environment"),
            var("R", "", Scope::System, "/etc/environment"),
        ]
    );
}

#[test]
fn system_file_line_without_equals_cannot_be_read() {
    assert!(!can_parse_system_environment("A=1\nNOEQ\n"));
    assert!(can_parse_system_environment("PATH\nA=1"));
    assert!(!can_parse_system_environment("A=1\n\nNOEQ"));
    assert!(can_parse_system_environment("A=1\n\n\nB=2\n"));
    assert!(can_parse_system_environment(""));
}

#[test]
fn profile_script_without_environment_values() {
    let content = "export A=1\n  export B=\"two\"\nexport PATH=/x\nexport #C=1\nexport D\nexport E=${HOME}/x\nexport F\t=1\necho hi\n";
    let e = env(&[]);
    assert!(can_parse_bash(content, false, &e));
    let vars = parse_bash("/etc/profile.d/x.sh", content, false, &e);
    assert_eq!(
        seen(&vars),
        vec![
            var("A", "", Scope::User, "/etc/profile.d/x.sh"),
            var("B", "", Scope::User, "/etc/profile.d/x.sh"),
            var("D", "", Scope::User, "/etc/profile.d/x.sh"),
            var("E", "", Scope::User, "/etc/profile.d/x.sh"),
        ]
    );
}

#[test]
fn profile_script_with_environment_values() {
    let content = "export A=1\n  export B=\"two\"\nexport PATH=/x\nexport D\nexport E=${HOME}/x\n";
    let e = env(&[("A", "envA"), ("OTHER", "o")]);
    let vars = parse_bash("f", content, true, &e);
    assert_eq!(
        seen(&vars),
        vec![var("A", "envA", Scope::User, "f"), var("B", "two", Scope::User, "f")]
    );
}

#[test]
fn profile_script_wide_value_keeps_closing_quote() {
    let vars = parse_bash("f", "export U=\"\u{e9}\"", true, &env(&[]));
    assert_eq!(seen(&vars), vec![var("U", "\u{e9}\"", Scope::User, "f")]);
}

#[test]
fn profile_script_lone_quote_cannot_be_read() {
    assert!(!can_parse_bash("export Q=\"", true, &env(&[])));
    assert!(can_parse_bash("export Q=\"", false, &env(&[])));
    assert!(!can_parse_bash("export Q=1", true, &env(&[("Q", "\"")])));
}

#[test]
fn zshenv_declarations() {
    let content = "export A=\"1\"\n#B=2\nC=3=4\nnoeq\nexport D=\"\u{e9}\"";
    assert!(can_parse_zshenv(content));
    let vars = parse_zshenv("/h/.zshenv", content);
    assert_eq!(
        seen(&vars),
        vec![
            var("A", "1", Scope::Terminal, "/h/.zshenv"),
            var("C", "3", Scope::Terminal, "/h/.zshenv"),
            var("D", "\u{e9}\"", Scope::Terminal, "/h/.zshenv"),
        ]
    );
}

#[test]
fn zshenv_lone_quote_cannot_be_read() {
    assert!(!can_parse_zshenv("X=\""));
    assert!(can_parse_zshenv("#X=\""));
    assert!(can_parse_zshenv("export PATH=\""));
}

#[test]
fn shell_files_never_declare_path() {
    let z = parse_zshenv("f", "export PATH=/a\nPATH=/b\nA=1");
    assert_eq!(seen(&z), vec![var("A", "1", Scope::Terminal, "f")]);
    let b = parse_bashrc("f", "export PATH=/a\nPATH=/b\nA=1");
    assert_eq!(seen(&b), vec![var("A", "1", Scope::Terminal, "f")]);
}

#[test]
fn bashrc_declarations() {
    let content = "export A=1\nB=\"2\"\nif x; then\n\texport C=3\nmy var=4\n#D=5\r\n";
    let vars = parse_bashrc("/h/.bashrc", content);
    assert_eq!(
        seen(&vars),
        vec![
            var("A", "1", Scope::Terminal, "/h/.bashrc"),
            var("B", "\"2\"", Scope::Terminal, "/h/.bashrc"),
        ]
    );
}

#[test]
fn lines_end_at_crlf_but_keep_a_lone_cr() {
    let vars = parse_bashrc("f", "A=1\r\nB=2\r");
    assert_eq!(
        seen(&vars),
        vec![var("A", "1", Scope::Terminal, "f"), var("B", "2\r", Scope::Terminal, "f")]
    );
}

#[test]
fn shell_files_are_found_in_the_home_directory() {
    assert_eq!(zshenv_path(Some("/root")), "/root/.zshenv");
    assert_eq!(bashrc_path(Some("/home/u")), "/home/u/.bashrc");
    assert_eq!(bashrc_path(None), "~/.bashrc");
    assert_eq!(zshenv_path(None), "~/.zshenv");
}

#[test]
fn terminal_variables_zsh_then_bash() {
    let vars = get_terminal_environment_variables(Some("/home/u"), Some("Z=1"), Some("B=2")).unwrap();
    assert_eq!(
        seen(&vars),
        vec![
            var("Z", "1", Scope::Terminal, "/home/u/.zshenv"),
            var("B", "2", Scope::Terminal, "/home/u/.bashrc"),
        ]
    );
    let none = get_terminal_environment_variables(None, None, None).unwrap();
    assert!(none.is_empty());
}

fn script(name: &str, content: Option<&str>) -> ProfileScript {
    ProfileScript { file_name: name.to_string(), content: content.map(|c| c.to_string()) }
}

#[test]
fn user_variables_script_after_script() {
    let files = vec![script("a.sh", Some("export A=1")), script("b.sh", Some("export B=2"))];
    let vars = get_user_environment_variables(&files, false, &env(&[])).unwrap();
    assert_eq!(
        seen(&vars),
        vec![
            var("A", "", Scope::User, "/etc/profile.d/a.sh"),
            var("B", "", Scope::User, "/etc/profile.d/b.sh"),
        ]
    );
}

#[test]
fn user_variables_fail_on_unreadable_script() {
    let files = vec![script("a.sh", Some("export A=1")), script("b.sh", None)];
    assert!(get_user_environment_variables(&files, false, &env(&[])).is_none());
}

#[test]
fn profile_scripts_are_checked_up_to_the_unreadable_one() {
    let e = env(&[]);
    assert!(can_parse_profile_scripts(&vec![script("a", None), script("b", Some("export Q=\""))], true, &e));
    assert!(!can_parse_profile_scripts(&vec![script("b", Some("export Q=\""))], true, &e));
}

#[test]
fn path_comes_from_the_environment() {
    let p = path_variable(&env(&[("HOME", "/h"), ("PATH", "/bin:/usr/bin")])).unwrap();
    assert_eq!(seen(&[p]), vec![var("PATH", "/bin:/usr/bin", Scope::System, "")]);
    assert!(path_variable(&env(&[("HOME", "/h")])).is_none());
}

fn sources(profile: Vec<ProfileScript>) -> Sources {
    Sources {
        etc_environment: "S=1\nPATH=/sbin\n".to_string(),
        profile_scripts: profile,
        environment: env(&[("PATH", "/bin")]),
        home: Some("/h".to_string()),
        zshenv: Some("Z=2".to_string()),
        bashrc: None,
    }
}

#[test]
fn all_variables_in_order() {
    let s = sources(vec![script("u.sh", Some("export U=3"))]);
    assert!(can_parse_sources(&s, false));
    let vars = get_all_environment_variables(&s, false, false).unwrap();
    assert_eq!(
        seen(&vars),
        vec![
            var("S", "1", Scope::System, "/etc/environment"),
            var("U", "", Scope::User, "/etc/profile.d/u.sh"),
            var("Z", "2", Scope::Terminal, "/h/.zshenv"),
        ]
    );
    let with_path = get_all_environment_variables(&s, true, true).unwrap();
    assert_eq!(
        seen(&with_path),
        vec![
            var("S", "1", Scope::System, "/etc/environment"),
            var("PATH", "/bin", Scope::System, ""),
            var("U", "3", Scope::User, "/etc/profile.d/u.sh"),
            var("Z", "2", Scope::Terminal, "/h/.zshenv"),
        ]
    );
}

#[test]
fn all_variables_fail_on_unreadable_script() {
    let s = sources(vec![script("u.sh", None)]);
    assert!(get_all_environment_variables(&s, false, false).is_none());
}

#[test]
fn unreadable_sources_are_reported() {
    let mut s = sources(vec![]);
    s.etc_environment = "NOEQ".to_string();
    assert!(!can_parse_sources(&s, false));
    let mut s = sources(vec![]);
    s.zshenv = Some("Q=\"".to_string());
    assert!(!can_parse_sources(&s, false));
    let mut s = sources(vec![script("u.sh", None)]);
    s.zshenv = Some("Q=\"".to_string());
    assert!(can_parse_sources(&s, false));
}

#[test]
fn path_is_only_listed_when_asked_for() {
    let mut s = sources(vec![script("p.sh", Some("export PATH=/x\nexport Q=1"))]);
    s.bashrc = Some("PATH=/y".to_string());
    s.zshenv = Some("export PATH=/z\nZ=2".to_string());
    let vars = get_all_environment_variables(&s, false, false).unwrap();
    assert_eq!(
        seen(&vars),
        vec![
            var("S", "1", Scope::System, "/etc/environment"),
            var("Q", "", Scope::User, "/etc/profile.d/p.sh"),
            var("Z", "2", Scope::Terminal, "/h/.zshenv"),
        ]
    );
    let with_path = get_all_environment_variables(&s, false, true).unwrap();
    assert_eq!(with_path.iter().filter(|v| v.get_name() == "PATH").count(), 1);
}

#[test]
fn debug_notes_of_a_profile_script() {
    let content = "export A=1\nexport B\nexport C=${A}\nexport D=4\nexport PATH=/x\n";
    let notes = parse_bash_notes("f.sh", content, true, &env(&[("D", "d")]));
    assert_eq!(
        notes,
        vec![
            "A declared in f.sh but not found in system".to_string(),
            "B declared in f.sh but not found in system".to_string(),
            "No equals sign found in f.sh for name B".to_string(),
            "C declared in f.sh but not found in system".to_string(),
            "Cannot extract value from variable declared with a variable and not found in system"
                .to_string(),
        ]
    );
    assert!(parse_bash_notes("f.sh", content, false, &env(&[])).is_empty());
}

#[test]
fn debug_notes_stop_at_the_unreadable_script() {
    let files = vec![
        script("a.sh", Some("export A=1")),
        script("b.sh", None),
        script("c.sh", Some("export C=1")),
    ];
    assert_eq!(
        profile_script_notes(&files, true, &env(&[])),
        vec!["A declared in /etc/profile.d/a.sh but not found in system".to_string()]
    );
}
