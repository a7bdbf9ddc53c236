use snap::checkout::{
    aborted, blocked_report, checkout_gate, checkout_outcome, checkout_plan, confirm_answer,
    failure_report, lost_warning, preflight, CheckoutStep, WriteCheck,
};
use snap::report::absent_keys;
use snap::tree::Tree;

fn tree(pairs: &[(&str, &str)]) -> Tree {
    let mut t = Tree::new();
    for (k, v) in pairs {
        t.insert(k.to_string(), v.to_string());
    }
    t
}

fn ok_check() -> WriteCheck {
    WriteCheck {
        object_missing: false,
        dir_in_way: false,
        blocked_by: None,
        dir_unwritable: false,
        readonly: false,
    }
}

#[test]
fn checkout_warns_before_losing_unsaved_content() {
    // a.txt holds content that no version has; switching would overwrite it
    let old = tree(&[("a.txt", "h_old")]);
    let target = tree(&[("a.txt", "h_target")]);
    let dels = absent_keys(&old, &target);
    let plan = checkout_plan(&target, &old, dels, &vec![Some("h_unsaved".to_string())], &vec![]);
    assert_eq!(plan.to_write, vec!["a.txt"]);
    assert_eq!(plan.lost, vec!["a.txt"]);
    let w = lost_warning(&plan.lost);
    assert!(w[0].contains("警告"), "应给出警告: {w:?}");
    assert_eq!(w[2], "    a.txt", "应列出会丢的文件");
    assert_eq!(confirm_answer(Some("n\n")).unwrap_err().message(), "已取消，工作区未做任何改动");
    assert!(confirm_answer(None).is_err());
    assert!(confirm_answer(Some(" Y\n")).is_ok());
    assert!(confirm_answer(Some("yes")).is_ok());
    // content equal to the old version's can be had back: not lost
    let plan = checkout_plan(&target, &old, vec![], &vec![Some("h_old".to_string())], &vec![]);
    assert_eq!(plan.to_write, vec!["a.txt"]);
    assert!(plan.lost.is_empty());
    // already the target content: nothing to do
    let plan = checkout_plan(&target, &old, vec![], &vec![Some("h_target".to_string())], &vec![]);
    assert!(plan.to_write.is_empty() && plan.lost.is_empty());
}

#[test]
fn deletions_and_their_losses() {
    let old = tree(&[("gone.txt", "h1"), ("keep.txt", "h2"), ("x.txt", "h3")]);
    let target = tree(&[("keep.txt", "h2")]);
    let dels = absent_keys(&old, &target);
    assert_eq!(dels, vec!["gone.txt", "x.txt"]);
    let plan = checkout_plan(
        &target,
        &old,
        dels,
        &vec![Some("h2".to_string())],
        &vec![Some("changed".to_string()), None],
    );
    assert_eq!(plan.to_delete, vec!["gone.txt", "x.txt"]);
    assert!(plan.to_write.is_empty());
    assert_eq!(plan.lost, vec!["gone.txt"]);
}

#[test]
fn checkout_preflight_leaves_everything_untouched() {
    let target = tree(&[("x/inner.txt", "0123456789abcdef"), ("y.txt", "fedcba9876543210")]);
    let old = Tree::new();
    let plan = checkout_plan(&target, &old, vec![], &vec![None, None], &vec![]);
    let checks = vec![
        WriteCheck { blocked_by: Some("x".to_string()), ..ok_check() },
        WriteCheck { object_missing: true, ..ok_check() },
    ];
    let problems = preflight(&plan, &target, &checks, &vec![]);
    assert_eq!(
        problems,
        vec![
            ("x/inner.txt".to_string(), "上层路径 x 是个文件，需要先把它移走".to_string()),
            ("y.txt".to_string(), "对象库缺少对象 fedcba98…".to_string()),
        ]
    );
    let report = blocked_report("v2", &problems);
    assert_eq!(report[0], "无法切换到 v2，以下问题需要先处理:");
    assert_eq!(report[1], "  ! x/inner.txt: 上层路径 x 是个文件，需要先把它移走");
    assert_eq!(aborted().message(), "checkout 已中止，工作区未做任何改动");
}

#[test]
fn read_only_file_is_caught_by_preflight() {
    let target = tree(&[("a.txt", "h")]);
    let plan = checkout_plan(&target, &Tree::new(), vec![], &vec![Some("other".to_string())], &vec![]);
    let problems = preflight(&plan, &target, &vec![WriteCheck { readonly: true, ..ok_check() }], &vec![]);
    assert_eq!(problems.len(), 1);
    assert!(problems[0].1.contains("只读"));
}

#[test]
fn head_moves_only_when_all_went_well() {
    assert!(checkout_outcome("v1", &vec![]).is_ok());
    let fails = vec![("a.txt".to_string(), "denied".to_string())];
    let e = checkout_outcome("v1", &fails).unwrap_err();
    assert_eq!(e.message(), "切换到 v1 未完成，工作区处于部分完成状态，请处理上述问题后重新运行");
    assert_eq!(failure_report(&fails), vec!["以下文件处理失败:", "  ! a.txt: denied"]);
}

#[test]
fn long_loss_lists_are_cut() {
    let lost: Vec<String> = (0..23).map(|i| format!("f{i}")).collect();
    let w = lost_warning(&lost);
    assert_eq!(w.len(), 2 + 20 + 1);
    assert_eq!(w[0], "警告: 以下 23 个文件在磁盘上的内容未保存到任何版本，");
    assert_eq!(w[22], "    ... 另外 3 个");
}

#[test]
fn directory_without_write_permission_is_caught_by_preflight() {
    let target = tree(&[("d/a.txt", "h"), ("b.txt", "h2")]);
    let plan = checkout_plan(&target, &Tree::new(), vec![], &vec![None, None], &vec![]);
    let checks = vec![
        WriteCheck { dir_unwritable: true, readonly: true, ..ok_check() },
        WriteCheck { dir_unwritable: true, blocked_by: Some("x".to_string()), ..ok_check() },
    ];
    let problems = preflight(&plan, &target, &checks, &vec![]);
    assert_eq!(
        problems,
        vec![
            ("b.txt".to_string(), "所在目录没有写权限".to_string()),
            ("d/a.txt".to_string(), "上层路径 x 是个文件，需要先把它移走".to_string()),
        ]
    );
}

fn stop_of(s: CheckoutStep) -> (Vec<String>, String) {
    match s {
        CheckoutStep::Stop(lines, e) => (lines, e.message()),
        CheckoutStep::Ask(..) => panic!("asked"),
        CheckoutStep::Apply => panic!("applied"),
    }
}

#[test]
fn checkout_gates_stop_ask_and_apply() {
    let problems = vec![("a.txt".to_string(), "文件只读，没有写权限".to_string())];
    let lost = vec!["a.txt".to_string()];
    // problems stop it before anything is asked or touched
    let (lines, e) = stop_of(checkout_gate("v2", &problems, &lost, None));
    assert_eq!(lines[0], "无法切换到 v2，以下问题需要先处理:");
    assert_eq!(lines[1], "  ! a.txt: 文件只读，没有写权限");
    assert_eq!(e, "checkout 已中止，工作区未做任何改动");
    // nothing lost: go ahead without asking
    assert!(matches!(checkout_gate("v2", &vec![], &vec![], None), CheckoutStep::Apply));
    // something lost: warn and ask
    match checkout_gate("v2", &vec![], &lost, None) {
        CheckoutStep::Ask(lines, prompt) => {
            assert!(lines[0].contains("警告"));
            assert_eq!(lines[2], "    a.txt");
            assert_eq!(prompt, "继续? [y/N] ");
        }
        _ => panic!("expected a question"),
    }
    assert!(matches!(checkout_gate("v2", &vec![], &lost, Some(Some("y\n"))), CheckoutStep::Apply));
    let (lines, e) = stop_of(checkout_gate("v2", &vec![], &lost, Some(Some("\n"))));
    assert!(lines.is_empty());
    assert_eq!(e, "已取消，工作区未做任何改动");
    let (_, e) = stop_of(checkout_gate("v2", &vec![], &lost, Some(None)));
    assert_eq!(e, "无法读取确认输入（stdin 不可用），已取消，工作区未做任何改动");
}
