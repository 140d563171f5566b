use envch::commands::{find_variable, plan_remove, plan_set, restart_hint, RemovePlan, SetPlan};
use envch::edit::{
    append_declaration, remove_from_script, remove_from_system_environment, replace_declaration,
    set_in_profile_script, set_in_system_environment,
};
use envch::list_env::{get_system_environment_variables, parse_bash, parse_bashrc, parse_zshenv};
use envch::paths::{shell_of, Shell};
use envch::{EnvironmentVariable, Remove, Scope, SetOptions};

fn ev(name: &str, scope: Scope, file: &str) -> EnvironmentVariable {
    EnvironmentVariable::new(name.to_string(), "v".to_string(), scope, file.to_string())
}

#[test]
fn profile_script_replaces_a_declaration() {
    let r = set_in_profile_script("export A=\"1\"\nexport B=2\n", "B", "3");
    assert_eq!(r.content, "export A=\"1\"\nexport B=\"3\"\n");
    assert_eq!(r.previous, vec!["2".to_string()]);
}

#[test]
fn profile_script_takes_a_new_declaration() {
    let r = set_in_profile_script("export A=\"1\"\nexport B=2\n", "C", "3");
    assert_eq!(r.content, "export A=\"1\"\nexport B=2\n\nexport C=\"3\"");
    assert!(r.previous.is_empty());
}

#[test]
fn system_environment_replaces_on_its_own_line() {
    let r = set_in_system_environment("A=1\nB=2", "A", "x");
    assert_eq!(r.content, "A=\"x\"\nB=2\n");
    assert_eq!(r.previous, vec!["1".to_string()]);
}

#[test]
fn system_environment_takes_a_new_declaration() {
    let r = set_in_system_environment("A=1", "Z", "9");
    assert_eq!(r.content, "A=1\nZ=\"9\"");
    assert!(r.previous.is_empty());
    let empty = set_in_system_environment("", "Z", "9");
    assert_eq!(empty.content, "Z=\"9\"");
}

#[test]
fn declaring_file_is_rewritten_in_place() {
    let r = replace_declaration("export A=\"1\"\nB=2\nC\nexport C=3\n", "C", "new");
    assert_eq!(r.content, "export A=\"1\"\nB=2\nexport C=new\n");
    assert_eq!(r.previous, vec!["3".to_string()]);
    let q = replace_declaration("A=\"1\"", "A", "2");
    assert_eq!(q.content, "A=\"2\"\n");
    assert_eq!(q.previous, vec!["\"1\"".to_string()]);
}

#[test]
fn shell_configuration_takes_a_new_line() {
    assert_eq!(append_declaration("X=1", "N", "v"), "X=1\nexport N=v");
    assert_eq!(append_declaration("", "N", "v"), "\nexport N=v");
}

#[test]
fn system_environment_loses_every_declaration() {
    assert_eq!(remove_from_system_environment("A=1\nB=2\nA=3\n", "A"), Some("B=2\n".to_string()));
    assert_eq!(remove_from_system_environment("B=2", "A"), None);
}

#[test]
fn script_loses_declarations_at_line_start() {
    assert_eq!(
        remove_from_script("export A=1\n  export A=2\nA=3\nABC=4\n# x\n", "A"),
        Some("  export A=2\nABC=4\n# x\n".to_string())
    );
    assert_eq!(remove_from_script("export B=1", "A"), None);
}

#[test]
fn shells_are_told_by_the_last_path_part() {
    assert_eq!(shell_of("/bin/zsh"), Some(Shell::Zsh));
    assert_eq!(shell_of("/usr/local/bin/bash"), Some(Shell::Bash));
    assert_eq!(shell_of("bash"), Some(Shell::Bash));
    assert_eq!(shell_of("/usr/bin/fish"), None);
    assert_eq!(shell_of("/bin/zsh/"), None);
    assert_eq!(shell_of(""), None);
    assert_eq!(Shell::Zsh.name(), "zsh");
    assert_eq!(Shell::Bash.name(), "bash");
    assert_eq!(Shell::Zsh.config_path(Some("/h")), "/h/.zshenv");
    assert_eq!(Shell::Bash.config_path(Some("/h")), "/h/.bashrc");
}

#[test]
fn first_variable_with_the_name_is_found() {
    let vars = vec![
        ev("A", Scope::System, "/etc/environment"),
        ev("B", Scope::User, "/etc/profile.d/b.sh"),
        ev("B", Scope::Terminal, "/h/.bashrc"),
    ];
    assert_eq!(find_variable(&vars, "B"), Some(1));
    assert_eq!(find_variable(&vars, "C"), None);
}

#[test]
fn set_rewrites_a_known_variable_or_declares_in_the_scope() {
    let vars = vec![ev("A", Scope::System, "/etc/environment"), ev("B", Scope::User, "x")];
    let known = SetOptions {
        name: "B".to_string(),
        value: "1".to_string(),
        debug: false,
        dry_run: false,
        scope: Scope::Terminal,
    };
    assert_eq!(plan_set(&vars, &known), SetPlan::Replace(1));
    let mut new = known.clone();
    new.name = "C".to_string();
    assert_eq!(plan_set(&vars, &new), SetPlan::Terminal);
    new.scope = Scope::System;
    assert_eq!(plan_set(&vars, &new), SetPlan::System);
    new.scope = Scope::User;
    assert_eq!(plan_set(&vars, &new), SetPlan::User);
}

#[test]
fn remove_goes_to_the_declaring_file() {
    let vars = vec![ev("A", Scope::System, "/etc/environment"), ev("B", Scope::Terminal, "/h/.zshenv")];
    let opts = |n: &str| Remove { name: n.to_string(), debug: false };
    assert_eq!(plan_remove(&vars, &opts("A")), RemovePlan::System);
    assert_eq!(plan_remove(&vars, &opts("B")), RemovePlan::Script(1));
    assert_eq!(plan_remove(&vars, &opts("C")), RemovePlan::NotFound);
}

#[test]
fn restart_hints_follow_the_scope() {
    assert_eq!(restart_hint(Scope::Terminal), "Restart your terminal for changes to take effect");
    assert_eq!(restart_hint(Scope::User), "Log out of your computer for changes to take effect");
    assert_eq!(restart_hint(Scope::System), "Restart your computer for changes to take effect");
}

fn names_values(vars: &[EnvironmentVariable]) -> Vec<(String, String)> {
    vars.iter().map(|v| (v.get_name().to_string(), v.get_value().to_string())).collect()
}

#[test]
fn new_system_variable_reads_back() {
    let r = set_in_system_environment("A=1\nB=2", "C", "3");
    let vars = get_system_environment_variables(&r.content);
    assert_eq!(
        names_values(&vars),
        vec![("A".into(), "1".into()), ("B".into(), "2".into()), ("C".into(), "3".into())]
    );
}

#[test]
fn replaced_system_variable_reads_back() {
    let r = replace_declaration("A=1\nB=\"2\"\n", "B", "9");
    let vars = get_system_environment_variables(&r.content);
    assert_eq!(names_values(&vars), vec![("A".into(), "1".into()), ("B".into(), "9".into())]);
}

#[test]
fn removed_system_variable_is_gone() {
    let r = remove_from_system_environment("A=1\nB=2\nA=3", "A").unwrap();
    let vars = get_system_environment_variables(&r);
    assert_eq!(names_values(&vars), vec![("B".into(), "2".into())]);
}

#[test]
fn removed_script_variable_is_gone() {
    let r = remove_from_script("export A=1\nexport B=2\n", "A").unwrap();
    let vars = parse_bash("f", &r, false, &vec![]);
    assert_eq!(names_values(&vars), vec![("B".into(), "".into())]);
}

#[test]
fn new_user_variable_reads_back() {
    let r = set_in_profile_script("export A=1\n", "N", "val");
    let vars = parse_bash("f", &r.content, true, &vec![("A".to_string(), "a".to_string())]);
    assert_eq!(names_values(&vars), vec![("A".into(), "a".into()), ("N".into(), "val".into())]);
}

#[test]
fn appended_terminal_variable_reads_back() {
    let z = append_declaration("X=1\n", "N", "\"v\"");
    let vars = parse_zshenv("f", &z);
    assert_eq!(names_values(&vars), vec![("X".into(), "1".into()), ("N".into(), "v".into())]);
    let b = append_declaration("X=1", "N", "v");
    let vars = parse_bashrc("f", &b);
    assert_eq!(names_values(&vars), vec![("X".into(), "1".into()), ("N".into(), "v".into())]);
}

#[test]
fn replaced_script_variable_reads_back() {
    let r = replace_declaration("export A=\"1\"\nexport B=2\nexport A\n", "A", "new");
    assert_eq!(r.content, "export A=\"new\"\nexport B=2\n");
    let vars = parse_bash("f", &r.content, true, &vec![("B".to_string(), "b".to_string())]);
    assert_eq!(names_values(&vars), vec![("A".into(), "new".into()), ("B".into(), "b".into())]);
}

#[test]
fn replaced_terminal_variable_reads_back() {
    let z = replace_declaration("export A=\"1\"\nB=2\n", "A", "new");
    assert_eq!(z.content, "export A=\"new\"\nB=2\n");
    let vars = parse_zshenv("f", &z.content);
    assert_eq!(names_values(&vars), vec![("A".into(), "new".into()), ("B".into(), "2".into())]);
    let b = replace_declaration("export A=\"1\"\nB=2\n", "B", "9");
    assert_eq!(b.content, "export A=\"1\"\nB=9\n");
    let vars = parse_bashrc("f", &b.content);
    assert_eq!(names_values(&vars), vec![("A".into(), "\"1\"".into()), ("B".into(), "9".into())]);
}

#[test]
fn replaced_declarations_keep_the_next_line() {
    let r = set_in_profile_script("export A=0\nexport B=2\n", "A", "x");
    assert_eq!(r.content, "export A=\"x\"\nexport B=2\n");
    assert_eq!(r.previous, vec!["0".to_string()]);
    let s = set_in_system_environment("A=\"0\"\nB=2\n", "A", "x");
    assert_eq!(s.content, "A=\"x\"\nB=2\n");
    let vars = get_system_environment_variables(&s.content);
    assert_eq!(names_values(&vars), vec![("A".into(), "x".into()), ("B".into(), "2".into())]);
}

#[test]
fn second_removal_finds_nothing() {
    let once = remove_from_script("export A=1\nA=2\nexport B=2\n", "A").unwrap();
    assert_eq!(once, "export B=2\n");
    assert!(remove_from_script(&once, "A").is_none());
    let sys = remove_from_system_environment("A=1\n\nB=2", "A").unwrap();
    assert!(remove_from_system_environment(&sys, "A").is_none());
}

#[test]
fn new_system_variable_reads_back_after_empty_lines() {
    let r = set_in_system_environment("A=1\n\nB=2\n", "C", "3");
    let vars = get_system_environment_variables(&r.content);
    assert_eq!(
        names_values(&vars),
        vec![("A".into(), "1".into()), ("B".into(), "2".into()), ("C".into(), "3".into())]
    );
}

#[test]
fn removed_terminal_variable_is_gone() {
    let z = remove_from_script("export A=1\nB=2\nA=3\n", "A").unwrap();
    assert_eq!(names_values(&parse_zshenv("f", &z)), vec![("B".into(), "2".into())]);
    let b = remove_from_script("export A=1\r\nB=2\nA=3", "A").unwrap();
    assert_eq!(names_values(&parse_bashrc("f", &b)), vec![("B".into(), "2".into())]);
}

#[test]
fn removal_keeps_indented_lines_of_other_names() {
    let r = remove_from_script("  export B=1\nexport A=2\n", "A").unwrap();
    assert_eq!(r, "  export B=1\n");
    assert_eq!(names_values(&parse_bash("f", &r, false, &vec![])), vec![("B".into(), "".into())]);
}

#[test]
fn replaced_script_variable_reads_back_beside_indented_lines() {
    let r = replace_declaration("  export B=1\nexport A=\"2\"\n", "A", "x");
    assert_eq!(r.content, "  export B=1\nexport A=\"x\"\n");
    let vars = parse_bash("f", &r.content, true, &vec![]);
    assert_eq!(names_values(&vars), vec![("B".into(), "1".into()), ("A".into(), "x".into())]);
}

#[test]
fn second_removal_from_crlf_file_finds_nothing() {
    let once = remove_from_system_environment("A=1\r\nB=2\r\n", "A").unwrap();
    assert_eq!(once, "B=2\n");
    assert!(remove_from_system_environment(&once, "A").is_none());
}
