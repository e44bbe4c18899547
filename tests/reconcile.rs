use prime_agent::agents_md::{AgentSection, AgentsDoc};
use prime_agent::skills_store::{NameError, SkillsStore};
use prime_agent::sync::{
    all_names, apply_resolution, change_choices, classify, conflict_hunks, merge_changes, needs_write,
    normalize_content, parse_choice, render_hunk, resolve_hunks, step_writes, sync_name, Change,
    Choice, LineTag, NameState, NameStep,
};

#[test]
fn normalize_unifies_endings_and_drops_final_breaks() {
    assert_eq!(normalize_content("a\r\nb\r\n\n"), "a\nb");
    assert_eq!(normalize_content(""), "");
    assert_eq!(normalize_content("a\rb"), "a\rb");
}

#[test]
fn classify_covers_each_state() {
    assert_eq!(classify(None, None), NameState::Absent);
    assert_eq!(classify(Some("X\n"), None), NameState::FragmentOnly);
    assert_eq!(classify(None, Some("line1\nline2")), NameState::SectionOnly);
    assert_eq!(classify(Some("a\r\nb\n\n"), Some("a\nb")), NameState::InSync);
    assert_eq!(classify(Some("A\nB\n"), Some("A\nC\n")), NameState::Diverged);
}

#[test]
fn conflict_resolution_left_and_right() {
    let hunks = conflict_hunks("A\nB\n", "A\nC\n");
    assert_eq!(hunks.len(), 1);
    let shown = render_hunk(&hunks[0]);
    assert_eq!(shown, " A\n-B\n+C\n");
    assert_eq!(resolve_hunks("A\nB\n", "A\nC\n", &vec![Choice::Skill]).unwrap(), "A\nB\n");
    assert_eq!(resolve_hunks("A\nB\n", "A\nC\n", &vec![Choice::Agents]).unwrap(), "A\nC\n");
}

#[test]
fn resolution_without_difference_keeps_left() {
    let hunks = conflict_hunks("same\nlines\n", "same\nlines\n");
    assert!(hunks.is_empty());
    assert_eq!(resolve_hunks("same\nlines\n", "same\nlines\n", &vec![]).unwrap(), "same\nlines\n");
    assert_eq!(resolve_hunks("a\n", "b\n", &vec![]), None);
}

#[test]
fn resolution_keeps_lines_between_hunks() {
    let left = "1\n2\n3\n4\n5\n6\n7\n8\n9\n10\n11\n12\n";
    let right = "1\nX\n3\n4\n5\n6\n7\n8\n9\n10\nY\n12\n";
    let hunks = conflict_hunks(left, right);
    assert_eq!(hunks.len(), 2);
    let out = resolve_hunks(left, right, &vec![Choice::Skill, Choice::Agents]).unwrap();
    assert_eq!(out, "1\n2\n3\n4\n5\n6\n7\n8\n9\n10\nY\n12\n");
}

#[test]
fn resolution_one_side_gives_that_side() {
    let left = "x\n1\n2\n3\n4\n5\n6\n7\ny\n";
    let right = "X\n1\n2\n3\n4\n5\n6\n7\nY\n";
    let hunks = conflict_hunks(left, right);
    assert_eq!(hunks.len(), 2);
    assert_eq!(resolve_hunks(left, right, &vec![Choice::Skill; 2]).unwrap(), left);
    assert_eq!(resolve_hunks(left, right, &vec![Choice::Agents; 2]).unwrap(), right);
    assert_eq!(
        resolve_hunks(left, right, &vec![Choice::Agents, Choice::Skill]).unwrap(),
        "X\n1\n2\n3\n4\n5\n6\n7\ny\n"
    );
}

#[test]
fn merge_changes_on_hand_made_changes() {
    let changes = vec![
        Change { tag: LineTag::Equal, text: "c\n".to_string() },
        Change { tag: LineTag::Delete, text: "l\n".to_string() },
        Change { tag: LineTag::Insert, text: "r\n".to_string() },
        Change { tag: LineTag::Equal, text: "e\n".to_string() },
        Change { tag: LineTag::Insert, text: "s\n".to_string() },
    ];
    let per = vec![Choice::Skill, Choice::Skill, Choice::Agents];
    assert_eq!(merge_changes(&changes, &per), "c\nl\ne\ns\n");
    let hunk = vec![
        Change { tag: LineTag::Equal, text: "c\n".to_string() },
        Change { tag: LineTag::Delete, text: "l\n".to_string() },
        Change { tag: LineTag::Insert, text: "r\n".to_string() },
    ];
    assert_eq!(change_choices(&vec![hunk], &vec![Choice::Agents]), vec![Choice::Agents, Choice::Agents]);
}

#[test]
fn parse_choice_accepts_both_spellings() {
    assert_eq!(parse_choice(" S \n"), Some(Choice::Skill));
    assert_eq!(parse_choice("skill"), Some(Choice::Skill));
    assert_eq!(parse_choice("A"), Some(Choice::Agents));
    assert_eq!(parse_choice("Agents\r\n"), Some(Choice::Agents));
    assert_eq!(parse_choice("x"), None);
    assert_eq!(parse_choice(""), None);
}

#[test]
fn validate_name_rules() {
    assert_eq!(SkillsStore::validate_name("good-name_1"), Ok(()));
    assert_eq!(SkillsStore::validate_name(""), Err(NameError::Empty));
    assert_eq!(SkillsStore::validate_name("bad name"), Err(NameError::InvalidCharacter));
    assert_eq!(SkillsStore::validate_name("a/b"), Err(NameError::InvalidCharacter));
}

#[test]
fn skill_path_joins_root_name_and_file() {
    let store = SkillsStore::new("/tmp/skills".to_string());
    assert_eq!(store.skill_path("alpha"), "/tmp/skills/alpha/SKILL.md");
    let store = SkillsStore::new("/tmp/skills/".to_string());
    assert_eq!(store.skill_path("alpha"), "/tmp/skills/alpha/SKILL.md");
    assert_eq!(store.skill_path("/abs"), "/abs/SKILL.md");
    assert_eq!(SkillsStore::new(String::new()).skill_path("a"), "a/SKILL.md");
}

#[test]
fn synced_content_settles() {
    let content = "A\nB\n";
    let section = AgentSection::from_content("g".to_string(), content);
    assert_eq!(classify(Some(content), Some(&section.content_string())), NameState::InSync);
}

#[test]
fn all_names_is_sorted_union_without_repeats() {
    let sections = vec!["gamma".to_string(), "alpha".to_string()];
    let skills = vec!["beta".to_string(), "alpha".to_string(), "Zed".to_string()];
    assert_eq!(
        all_names(&sections, &skills),
        vec!["Zed".to_string(), "alpha".to_string(), "beta".to_string(), "gamma".to_string()]
    );
    assert!(all_names(&vec![], &vec![]).is_empty());
}

#[test]
fn needs_write_decision() {
    assert!(needs_write(true, Some("x"), "x"));
    assert!(!needs_write(false, Some("x"), "x"));
    assert!(needs_write(false, Some("x"), "y"));
    assert!(needs_write(false, None, ""));
}

#[test]
fn second_sync_is_quiet() {
    let text = "head\n<!-- prime-agent(Start gamma) -->\n## gamma\nA\nC\n<!-- prime-agent(End gamma) -->\n";
    let mut doc = AgentsDoc::parse(text).unwrap();
    let fragment = "A\nB\n";
    let section = doc.get_section("gamma").unwrap().content_string();
    assert_eq!(classify(Some(fragment), Some(&section)), NameState::Diverged);
    let hunks = conflict_hunks(fragment, &section);
    let choices = vec![Choice::Skill; hunks.len()];
    let resolved = resolve_hunks(fragment, &section, &choices).unwrap();
    assert_eq!(resolved, "A\nB\n");
    doc.upsert_section(AgentSection::from_content("gamma".to_string(), &resolved));
    let written = doc.render();
    assert!(needs_write(true, Some(text), &written));

    let again = AgentsDoc::parse(&written).unwrap();
    let section_again = again.get_section("gamma").unwrap().content_string();
    assert_eq!(section_again, resolved);
    assert_eq!(classify(Some(&resolved), Some(&section_again)), NameState::InSync);
    assert!(!needs_write(false, Some(&written), &again.render()));
}

#[test]
fn section_only_name_gives_fragment_and_keeps_document() {
    let text = "<!-- prime-agent(Start alpha) -->\n## alpha\nline1\nline2\n<!-- prime-agent(End alpha) -->";
    let mut doc = AgentsDoc::parse(text).unwrap();
    match sync_name(&mut doc, "alpha", None) {
        NameStep::SaveFragment(content) => assert_eq!(content, "line1\nline2"),
        other => panic!("unexpected step {other:?}"),
    }
    assert_eq!(doc.render(), text);
}

#[test]
fn fragment_only_name_adds_section() {
    let mut doc = AgentsDoc::parse("notes").unwrap();
    assert!(matches!(sync_name(&mut doc, "beta", Some("X\n")), NameStep::SectionAdded));
    let section = doc.get_section("beta").unwrap();
    assert_eq!(section.content_lines[0], "X");
    assert_eq!(
        doc.render(),
        "notes\n<!-- prime-agent(Start beta) -->\n## beta\nX\n\n<!-- prime-agent(End beta) -->"
    );
}

#[test]
fn diverged_name_asks_for_resolution() {
    let text = "<!-- prime-agent(Start gamma) -->\n## gamma\nA\nC\n\n<!-- prime-agent(End gamma) -->";
    let mut doc = AgentsDoc::parse(text).unwrap();
    match sync_name(&mut doc, "gamma", Some("A\nB\n")) {
        NameStep::Resolve { skill, agents } => {
            assert_eq!(skill, "A\nB\n");
            assert_eq!(agents, "A\nC\n");
            let hunks = conflict_hunks(&skill, &agents);
            assert_eq!(hunks.len(), 1);
            assert_eq!(resolve_hunks(&skill, &agents, &vec![Choice::Skill]).unwrap(), "A\nB\n");
            assert_eq!(resolve_hunks(&skill, &agents, &vec![Choice::Agents]).unwrap(), "A\nC\n");
        }
        other => panic!("unexpected step {other:?}"),
    }
    assert_eq!(doc.render(), text);
}

#[test]
fn matching_name_needs_nothing() {
    let text = "<!-- prime-agent(Start d) -->\n## d\nsame\n<!-- prime-agent(End d) -->";
    let mut doc = AgentsDoc::parse(text).unwrap();
    assert!(matches!(sync_name(&mut doc, "d", Some("same\r\n")), NameStep::Nothing));
    assert!(matches!(sync_name(&mut doc, "zzz", None), NameStep::Nothing));
}

#[test]
fn every_step_but_nothing_writes() {
    assert!(!step_writes(&NameStep::Nothing));
    assert!(step_writes(&NameStep::SectionAdded));
    assert!(step_writes(&NameStep::SaveFragment("x".to_string())));
    assert!(step_writes(&NameStep::Resolve { skill: "a".to_string(), agents: "b".to_string() }));
}

#[test]
fn apply_resolution_replaces_section_in_place() {
    let text = "top\n<!-- prime-agent(Start g) -->\n## g\nold\n<!-- prime-agent(End g) -->\nend";
    let mut doc = AgentsDoc::parse(text).unwrap();
    apply_resolution(&mut doc, "g", "new\n");
    assert_eq!(
        doc.render(),
        "top\n<!-- prime-agent(Start g) -->\n## g\nnew\n\n<!-- prime-agent(End g) -->\nend"
    );
}
