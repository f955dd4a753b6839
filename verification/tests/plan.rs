use app_registry::plan::{OnFailure, OnSuccess, Step};
use app_registry::{Access, Failure, Key, Plan, Reply, Request, Session, Value};

fn delete(name: &str) -> Request {
    Request::DeleteTree { key: Key::SoftwareClasses, sub_key: name.to_string() }
}

fn step(name: &str, on_failure: OnFailure) -> Step {
    Step { request: delete(name), on_success: OnSuccess::Continue, on_failure }
}

fn abort(context: &str) -> OnFailure {
    OnFailure::Abort { context: Some(context.to_string()) }
}

fn failed(cause: &str) -> Reply {
    Reply::Failed(cause.to_string())
}

fn names(plan: Plan, replies: Vec<Reply>) -> (Vec<String>, Option<Result<(), String>>) {
    let mut session = Session::start(plan);
    let mut asked = Vec::new();
    let mut replies = replies.into_iter();
    while let Some(request) = session.request() {
        if let Request::DeleteTree { sub_key, .. } = request {
            asked.push(sub_key.clone());
        } else {
            asked.push("?".to_string());
        }
        match replies.next() {
            Some(reply) => session.answer(reply),
            None => return (asked, None),
        }
    }
    let outcome = match session.outcome() {
        Some(Ok(())) => Some(Ok(())),
        Some(Err(failure)) => Some(Err(failure.message())),
        None => panic!("a session without a request has an outcome"),
    };
    (asked, outcome)
}

fn three() -> Plan {
    Plan {
        steps: vec![step("a", abort("no a")), step("b", abort("no b")), step("c", abort("no c"))],
        outcome: Ok(()),
    }
}

#[test]
fn empty_plan_ends_at_once() {
    let mut session = Session::start(Plan::new());
    assert_eq!(session.request(), None);
    assert_eq!(session.outcome(), Some(&Ok(())));
    session.answer(failed("late"));
    assert_eq!(session.outcome(), Some(&Ok(())));
}

#[test]
fn plan_without_steps_keeps_its_outcome() {
    let plan = Plan { steps: Vec::new(), outcome: Err(Failure::SizeOutOfRange) };
    assert_eq!(Session::start(plan).outcome(), Some(&Err(Failure::SizeOutOfRange)));
}

#[test]
fn outcome_waits_for_the_last_reply() {
    let mut session = Session::start(three());
    for name in ["a", "b", "c"] {
        assert_eq!(session.outcome(), None);
        assert_eq!(session.request(), Some(&delete(name)));
        session.answer(Reply::Done);
    }
    assert_eq!(session.request(), None);
    assert_eq!(session.outcome(), Some(&Ok(())));
}

#[test]
fn aborting_step_fails_the_operation() {
    let (asked, outcome) = names(three(), vec![Reply::Done, failed("access denied")]);
    assert_eq!(asked, vec!["a", "b"]);
    assert_eq!(outcome, Some(Err("no b: access denied".to_string())));
}

#[test]
fn aborting_step_without_context_fails_with_the_bare_message() {
    let plan = Plan { steps: vec![Step::must_bare(delete("a"))], outcome: Ok(()) };
    let (_, outcome) = names(plan, vec![failed("access denied")]);
    assert_eq!(outcome, Some(Err("access denied".to_string())));
}

#[test]
fn failure_tells_context_and_cause_apart() {
    let mut session = Session::start(three());
    session.answer(failed("gone"));
    assert_eq!(
        session.outcome(),
        Some(&Err(Failure::Registry {
            context: Some("no a".to_string()),
            cause: "gone".to_string(),
        }))
    );
    session.answer(Reply::Done);
    assert_eq!(session.request(), None);
}

#[test]
fn skipping_step_goes_on() {
    let plan = Plan {
        steps: vec![step("a", OnFailure::Skip(1)), step("b", abort("no b")), step("c", abort("no c"))],
        outcome: Ok(()),
    };
    let (asked, outcome) = names(plan, vec![failed("x"), Reply::Done]);
    assert_eq!(asked, vec!["a", "c"]);
    assert_eq!(outcome, Some(Ok(())));
}

#[test]
fn skip_beyond_the_end_ends_the_operation() {
    let plan = Plan {
        steps: vec![step("a", OnFailure::Skip(usize::MAX)), step("b", abort("no b"))],
        outcome: Ok(()),
    };
    let (asked, outcome) = names(plan, vec![failed("x")]);
    assert_eq!(asked, vec!["a"]);
    assert_eq!(outcome, Some(Ok(())));
}

fn conditional() -> Plan {
    Plan {
        steps: vec![
            Step {
                request: delete("read"),
                on_success: OnSuccess::ContinueIfText {
                    text: "App.File.txt".to_string(),
                    otherwise_skip: 1,
                },
                on_failure: OnFailure::Abort { context: None },
            },
            step("clear", abort("no clear")),
            step("rest", abort("no rest")),
        ],
        outcome: Ok(()),
    }
}

#[test]
fn step_is_taken_only_if_the_text_is_found() {
    let text = |t: &str| Reply::Text(t.to_string());
    let (asked, _) = names(conditional(), vec![text("App.File.txt")]);
    assert_eq!(asked, vec!["read", "clear"]);
    for reply in [text("Other.File.txt"), text(""), Reply::OtherValue, Reply::Done] {
        let (asked, _) = names(conditional(), vec![reply]);
        assert_eq!(asked, vec!["read", "rest"]);
    }
    let (asked, outcome) = names(conditional(), vec![failed("no value")]);
    assert_eq!(asked, vec!["read"]);
    assert_eq!(outcome, Some(Err("no value".to_string())));
}

#[test]
fn absorbed_plan_asks_for_the_same_and_ends_well() {
    let absorbed = three().absorb();
    assert_eq!(
        absorbed,
        Plan {
            steps: vec![
                step("a", OnFailure::Skip(2)),
                step("b", OnFailure::Skip(1)),
                step("c", OnFailure::Skip(0)),
            ],
            outcome: Ok(()),
        }
    );
    let (asked, outcome) = names(absorbed, vec![Reply::Done, failed("x")]);
    assert_eq!(asked, vec!["a", "b"]);
    assert_eq!(outcome, Some(Ok(())));
}

#[test]
fn absorbing_keeps_skips_and_drops_the_outcome() {
    let plan = Plan {
        steps: vec![step("a", OnFailure::Skip(0)), step("b", abort("no b"))],
        outcome: Err(Failure::SizeOutOfRange),
    };
    assert_eq!(
        plan.absorb(),
        Plan {
            steps: vec![step("a", OnFailure::Skip(0)), step("b", OnFailure::Skip(0))],
            outcome: Ok(()),
        }
    );
}

#[test]
fn plan_after_an_absorbed_plan_is_always_reached() {
    for failing in 0..4 {
        let mut plan = three().absorb();
        plan.append(Plan { steps: vec![step("d", abort("no d"))], outcome: Ok(()) });
        let mut replies: Vec<Reply> = (0..failing).map(|_| Reply::Done).collect();
        if failing < 3 {
            replies.push(failed("x"));
        }
        let (asked, outcome) = names(plan, replies);
        assert_eq!(asked.last(), Some(&"d".to_string()));
        assert_eq!(outcome, None);
    }
}

#[test]
fn appending_takes_over_steps_and_outcome() {
    let mut plan = Plan { steps: vec![step("a", abort("no a"))], outcome: Ok(()) };
    plan.append(Plan {
        steps: vec![step("b", abort("no b"))],
        outcome: Err(Failure::SizeOutOfRange),
    });
    plan.push(step("c", abort("no c")));
    assert_eq!(plan.steps.len(), 3);
    let (asked, outcome) = names(plan, vec![Reply::Done, Reply::Done, Reply::Done]);
    assert_eq!(asked, vec!["a", "b", "c"]);
    assert_eq!(outcome, Some(Err("out of range integral type conversion attempted".to_string())));
}

#[test]
fn size_failure_reads_like_a_failed_conversion() {
    let error = u32::try_from(u64::MAX).unwrap_err();
    assert_eq!(Failure::SizeOutOfRange.message(), error.to_string());
}

#[test]
fn plan_never_asks_for_more_than_its_steps() {
    for bits in 0..8u32 {
        let replies: Vec<Reply> =
            (0..3).map(|i| if bits >> i & 1 == 0 { Reply::Done } else { failed("x") }).collect();
        let (asked, outcome) = names(three().absorb(), replies);
        assert!(asked.len() <= 3);
        assert_eq!(outcome, Some(Ok(())));
    }
}

#[test]
fn requests_are_made_of_their_parts() {
    assert_eq!(
        Request::create_key(Key::CurrentUser, "Software", Access::AllAccess, Key::Uninstall),
        Request::CreateKey {
            parent: Key::CurrentUser,
            sub_key: "Software".to_string(),
            access: Access::AllAccess,
            opened: Key::Uninstall,
        }
    );
    let set = |name: &str, value: Value| Request::SetValue {
        key: Key::Protocol,
        name: name.to_string(),
        value,
    };
    assert_eq!(Request::set_text(Key::Protocol, "n", "t"), set("n", Value::Sz("t".to_string())));
    assert_eq!(Request::set_default(Key::Protocol, "t"), set("", Value::Sz("t".to_string())));
    assert_eq!(Request::set_empty(Key::Protocol, "n"), set("n", Value::Sz(String::new())));
    assert_eq!(Request::clear_default(Key::Protocol), set("", Value::Sz(String::new())));
    assert_eq!(Request::set_number(Key::Protocol, "n", 7), set("n", Value::Dword(7)));
    assert_eq!(
        Request::get_default(Key::Extension),
        Request::GetValue { key: Key::Extension, sub_key: String::new(), name: String::new() }
    );
    assert_eq!(Request::delete_tree(Key::SoftwareClasses, "x"), delete("x"));
    assert_eq!(
        Request::delete_key(Key::Uninstall, "x"),
        Request::DeleteKey { key: Key::Uninstall, sub_key: "x".to_string() }
    );
}

#[test]
fn steps_say_what_a_failure_means() {
    assert_eq!(Step::must(delete("a"), "no a".to_string()), step("a", abort("no a")));
    assert_eq!(Step::must_bare(delete("a")), step("a", OnFailure::Abort { context: None }));
    assert_eq!(Step::may(delete("a")), step("a", OnFailure::Skip(0)));
}
