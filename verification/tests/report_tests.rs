use updater::error::Error;
use updater::report::{build_report, name_le_exec, push_failures, render_report, settle_pushes, sort_by_name};
use updater::version::Version;

fn v(major: u16, minor: u16) -> Version {
    Version { major, minor, patch: 0, build: 0 }
}

#[test]
fn name_order_is_byte_order() {
    assert!(name_le_exec("a", "b"));
    assert!(name_le_exec("a", "a"));
    assert!(name_le_exec("ab", "b"));
    assert!(name_le_exec("a", "ab"));
    assert!(!name_le_exec("b", "ab"));
    assert!(name_le_exec("Z", "a"));
}

#[test]
fn sort_is_stable_and_ordered() {
    let mut items = vec![("c", 1), ("a", 2), ("b", 3), ("a", 4)];
    sort_by_name(&mut items);
    assert_eq!(items, vec![("a", 2), ("a", 4), ("b", 3), ("c", 1)]);
}

#[test]
fn full_report() {
    let mut errors = vec![("zeta", Error::UpdateNoRelease), ("alpha", Error::PushFailed)];
    let mut updated = vec![("madvr", (v(1, 0), v(1, 1)))];
    let mut current = vec![("xysubfilter", v(3, 2)), ("imhex", v(1, 30))];
    let report = build_report(Some(&["madvr"]), &mut errors, &mut updated, &mut current);
    assert_eq!(
        report,
        "The following packages have been updated in the repo, but could not be pushed to chocolatey:\n\n- madvr\n\n\
## Errors\n\n- alpha: error pushing package to git\n- zeta: error fetching version: no release found\n\n\
## Updates\n\n- madvr: 1.0 -> 1.1\n\n\
## Up to date\n\n- imhex: 1.30\n- xysubfilter: 3.2\n"
    );
    assert_eq!(current[0].0, "imhex");
}

#[test]
fn errors_without_updates_have_no_blank_line() {
    let errors = [("a", Error::PushFailed)];
    let report = render_report(None, &errors, &[], &[("b", v(1, 2))]);
    assert_eq!(report, "## Errors\n\n- a: error pushing package to git\n## Up to date\n\n- b: 1.2\n");
}

#[test]
fn empty_report() {
    assert_eq!(render_report(None, &[], &[], &[]), "");
}

#[test]
fn settle_pushes_splits_by_outcome() {
    let updated = vec![("a", v(1, 0), v(1, 1)), ("b", v(2, 0), v(2, 1)), ("c", v(3, 0), v(3, 1))];
    let outcomes = vec![
        Err(Error::CommandStatus("choco", "1".to_string())),
        Ok(()),
        Err(Error::CommandStatus("choco", "2".to_string())),
    ];
    let (kept, failed, reset) = settle_pushes(updated, outcomes);
    assert_eq!(reset, Some(3));
    assert_eq!(kept.len(), 1);
    assert_eq!(kept[0].0, "b");
    assert_eq!(failed.len(), 2);
    assert_eq!(failed[0].0, "c");
    assert!(matches!(&failed[0].1, Error::CommandStatus("choco", m) if m == "2"));
    assert_eq!(failed[1].0, "a");
    assert!(matches!(&failed[1].1, Error::CommandStatus("choco", m) if m == "1"));
}

#[test]
fn settle_pushes_without_refusals_needs_no_reset() {
    let updated = vec![("a", v(1, 0), v(1, 1)), ("b", v(2, 0), v(2, 1))];
    let (kept, failed, reset) = settle_pushes(updated, vec![Ok(()), Ok(())]);
    assert_eq!(kept.len(), 2);
    assert_eq!(kept[0].0, "a");
    assert_eq!(kept[1].0, "b");
    assert!(failed.is_empty());
    assert_eq!(reset, None);
}

#[test]
fn failed_git_push_fails_every_update() {
    let updated = vec![("a", v(1, 0), v(1, 1)), ("b", v(2, 0), v(2, 1))];
    let errors = push_failures(updated);
    assert_eq!(errors.len(), 2);
    assert_eq!(errors[0].0, "a");
    assert!(matches!(errors[0].1, Error::PushFailed));
    assert_eq!(errors[1].0, "b");
    assert!(matches!(errors[1].1, Error::PushFailed));
}
