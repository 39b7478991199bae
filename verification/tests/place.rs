use addonforge::place::{place_next, PlaceStep};
use addonforge::place::PlaceStep::{Abort, Finish, Install, MoveAside, Refuse, Restore};

fn names(v: &[&str]) -> Vec<String> {
    v.iter().map(|s| s.to_string()).collect()
}

/// Runs the machine; `fail_at` is the position of the forward move that fails.
fn run(ns: &[&str], exists: &[bool], fail_at: Option<usize>) -> Vec<PlaceStep> {
    let ns = names(ns);
    let exists = exists.to_vec();
    let mut done = Vec::new();
    let mut failed = false;
    let mut forward = 0;
    loop {
        let step = place_next(&ns, &exists, &done, failed);
        match step {
            PlaceStep::MoveAside(_) | PlaceStep::Install(_) => {
                if fail_at == Some(forward) {
                    failed = true;
                }
                forward += 1;
            }
            PlaceStep::Restore(_) => {}
            _ => {
                done.push(step);
                return done;
            }
        }
        done.push(step);
    }
}

#[test]
fn installs_move_existing_folders_aside_first() {
    assert_eq!(
        run(&["A", "B", "C"], &[true, false, true], None),
        vec![MoveAside(0), Install(0), Install(1), MoveAside(2), Install(2), Finish]
    );
    assert_eq!(run(&[], &[], None), vec![Finish]);
}

#[test]
fn refused_name_moves_nothing() {
    assert_eq!(run(&["Good", ".hidden", "x..y"], &[true, true, true], None), vec![Refuse(1)]);
}

#[test]
fn failure_restores_everything_in_reverse() {
    // the install of C fails after A, B were installed and C moved aside
    assert_eq!(
        run(&["A", "B", "C"], &[true, false, true], Some(4)),
        vec![MoveAside(0), Install(0), Install(1), MoveAside(2), Install(2), Restore(2), Restore(1), Restore(0), Abort]
    );
    // moving C aside fails: C itself is left alone
    assert_eq!(
        run(&["A", "B", "C"], &[true, false, true], Some(3)),
        vec![MoveAside(0), Install(0), Install(1), MoveAside(2), Restore(1), Restore(0), Abort]
    );
    // the very first move fails
    assert_eq!(run(&["A"], &[true], Some(0)), vec![MoveAside(0), Abort]);
}
