//! Plans: what an operation asks of the registry, step by step, and what it
//! makes of each reply.
//!
//! An operation never touches the registry itself. It hands out a [`Plan`]; a
//! [`Session`] walks through it, naming one [`Request`] at a time and taking the
//! [`Reply`] of whoever performs it. A plan has no back jumps, so a session asks
//! for at most as many requests as the plan has steps.
use vstd::prelude::*;
use vstd::string::*;

verus! {

/// The keys that requests speak of: the predefined root and, by the part each
/// plays, the keys that an operation opens.
#[derive(Debug, Clone, Copy, PartialEq, Eq, Structural, Hash)]
pub enum Key {
    /// The predefined key of the current user, always open.
    CurrentUser,
    /// `Software\Classes`.
    SoftwareClasses,
    /// `Software\RegisteredApplications`.
    RegisteredApplications,
    /// The capabilities of the application.
    Capabilities,
    /// The file associations among the capabilities of the application.
    FileAssociations,
    /// The class of one URL protocol.
    Protocol,
    /// The open command of that protocol.
    ProtocolCommand,
    /// The class of one program ID.
    Program,
    /// The icon of that program ID.
    ProgramIcon,
    /// The open command of that program ID.
    ProgramCommand,
    /// The class of one file extension.
    Extension,
    /// The programs offered to open files of that extension.
    OpenWith,
    /// The list of installed programs.
    Uninstall,
    /// The entry of the application in that list.
    UninstallEntry,
}

/// The rights with which a key is opened.
#[derive(Debug, Clone, Copy, PartialEq, Eq, Structural, Hash)]
pub enum Access {
    /// Sub keys may be created.
    CreateSubKey,
    /// Everything is allowed.
    AllAccess,
}

/// A value that is written to the registry.
#[derive(Debug, PartialEq, Eq)]
pub enum Value<S = String> {
    /// A string.
    Sz(S),
    /// A number.
    Dword(u32),
}

/// One thing to be done to the registry.
#[derive(Debug, PartialEq, Eq)]
pub enum Request<S = String> {
    /// Open `sub_key` below `parent`, creating it where it does not exist. From
    /// then on `opened` names the key, and no longer the one it named before.
    CreateKey { parent: Key, sub_key: S, access: Access, opened: Key },
    /// Write a value of a key. The default value has the empty name.
    SetValue { key: Key, name: S, value: Value<S> },
    /// Read a value of a key or, where `sub_key` is not empty, of a sub key.
    GetValue { key: Key, sub_key: S, name: S },
    /// Delete a sub key and all that is below it.
    DeleteTree { key: Key, sub_key: S },
    /// Delete a sub key that has no sub keys of its own.
    DeleteKey { key: Key, sub_key: S },
}

/// What came of a request.
#[derive(Debug, PartialEq, Eq)]
pub enum Reply<S = String> {
    /// It was done.
    Done,
    /// A value was read, and it is this string.
    Text(S),
    /// A value was read, and it is no string.
    OtherValue,
    /// It failed, with this error message.
    Failed(S),
}

/// How to go on when a request was done.
#[derive(Debug, PartialEq, Eq)]
pub enum OnSuccess<S = String, N = usize> {
    /// With the next step.
    Continue,
    /// With the next step where the value read is the string `text`; otherwise
    /// that many steps are left out.
    ContinueIfText { text: S, otherwise_skip: N },
}

/// How to go on when a request failed.
#[derive(Debug, PartialEq, Eq)]
pub enum OnFailure<S = String, N = usize> {
    /// Not at all: the operation fails. The context, where there is one, goes
    /// before the error message.
    Abort { context: Option<S> },
    /// After leaving that many steps out.
    Skip(N),
}

/// A request and how to go on after it.
#[derive(Debug, PartialEq, Eq)]
pub struct Step<S = String, N = usize> {
    pub request: Request<S>,
    pub on_success: OnSuccess<S, N>,
    pub on_failure: OnFailure<S, N>,
}

/// Why an operation failed.
#[derive(Debug, PartialEq, Eq)]
pub enum Failure<S = String> {
    /// A request failed.
    Registry { context: Option<S>, cause: S },
    /// A size does not fit into the 32 bits that the registry keeps for it.
    SizeOutOfRange,
}

pub type ValueView = Value<Seq<char>>;

pub type RequestView = Request<Seq<char>>;

pub type ReplyView = Reply<Seq<char>>;

pub type StepView = Step<Seq<char>, nat>;

pub type FailureView = Failure<Seq<char>>;

/// The characters of a string that may be missing.
pub open spec fn option_text(text: Option<String>) -> Option<Seq<char>> {
    match text {
        Some(s) => Some(s@),
        None => None,
    }
}

/// An outcome with the characters of its strings.
pub open spec fn outcome_view(outcome: Result<(), Failure>) -> Result<(), FailureView> {
    match outcome {
        Ok(()) => Ok(()),
        Err(failure) => Err(failure@),
    }
}

impl View for Value {
    type V = ValueView;

    open spec fn view(&self) -> ValueView {
        match self {
            Value::Sz(text) => Value::Sz(text@),
            Value::Dword(number) => Value::Dword(*number),
        }
    }
}

impl View for Request {
    type V = RequestView;

    open spec fn view(&self) -> RequestView {
        match self {
            Request::CreateKey { parent, sub_key, access, opened } => Request::CreateKey {
                parent: *parent,
                sub_key: sub_key@,
                access: *access,
                opened: *opened,
            },
            Request::SetValue { key, name, value } => Request::SetValue {
                key: *key,
                name: name@,
                value: value@,
            },
            Request::GetValue { key, sub_key, name } => Request::GetValue {
                key: *key,
                sub_key: sub_key@,
                name: name@,
            },
            Request::DeleteTree { key, sub_key } => Request::DeleteTree {
                key: *key,
                sub_key: sub_key@,
            },
            Request::DeleteKey { key, sub_key } => Request::DeleteKey {
                key: *key,
                sub_key: sub_key@,
            },
        }
    }
}

impl View for Reply {
    type V = ReplyView;

    open spec fn view(&self) -> ReplyView {
        match self {
            Reply::Done => Reply::Done,
            Reply::Text(text) => Reply::Text(text@),
            Reply::OtherValue => Reply::OtherValue,
            Reply::Failed(cause) => Reply::Failed(cause@),
        }
    }
}

impl View for Step {
    type V = StepView;

    open spec fn view(&self) -> StepView {
        Step {
            request: self.request@,
            on_success: match self.on_success {
                OnSuccess::Continue => OnSuccess::Continue,
                OnSuccess::ContinueIfText { text, otherwise_skip } => OnSuccess::ContinueIfText {
                    text: text@,
                    otherwise_skip: otherwise_skip as nat,
                },
            },
            on_failure: match self.on_failure {
                OnFailure::Abort { context } => OnFailure::Abort { context: option_text(context) },
                OnFailure::Skip(n) => OnFailure::Skip(n as nat),
            },
        }
    }
}

impl View for Failure {
    type V = FailureView;

    open spec fn view(&self) -> FailureView {
        match self {
            Failure::Registry { context, cause } => Failure::Registry {
                context: option_text(*context),
                cause: cause@,
            },
            Failure::SizeOutOfRange => Failure::SizeOutOfRange,
        }
    }
}

/// The message of a failure: the context, where there is one, a colon and the
/// error message of the request.
pub open spec fn failure_message(failure: FailureView) -> Seq<char> {
    match failure {
        Failure::Registry { context: Some(context), cause } => context + ": "@ + cause,
        Failure::Registry { context: None, cause } => cause,
        Failure::SizeOutOfRange => "out of range integral type conversion attempted"@,
    }
}

impl Failure {
    /// The message of this failure.
    pub fn message(&self) -> (message: String)
        ensures
            message@ == failure_message(self@),
    {
        match self {
            Failure::Registry { context: Some(context), cause } => context.clone().concat(
                ": ",
            ).concat(cause.as_str()),
            Failure::Registry { context: None, cause } => cause.clone(),
            Failure::SizeOutOfRange => "out of range integral type conversion attempted".to_string(),
        }
    }
}

/// A step that fails the operation when its request fails.
pub open spec fn must(request: RequestView, context: Option<Seq<char>>) -> StepView {
    Step { request, on_success: OnSuccess::Continue, on_failure: OnFailure::Abort { context } }
}

/// A step whose request may fail without consequence.
pub open spec fn may(request: RequestView) -> StepView {
    Step { request, on_success: OnSuccess::Continue, on_failure: OnFailure::Skip(0) }
}

impl Step {
    /// A step that fails the operation, with this context, when its request fails.
    pub fn must(request: Request, context: String) -> (step: Step)
        ensures
            step@ == must(request@, Some(context@)),
    {
        Step {
            request,
            on_success: OnSuccess::Continue,
            on_failure: OnFailure::Abort { context: Some(context) },
        }
    }

    /// A step that fails the operation, with the bare error message, when its request fails.
    pub fn must_bare(request: Request) -> (step: Step)
        ensures
            step@ == must(request@, None),
    {
        Step {
            request,
            on_success: OnSuccess::Continue,
            on_failure: OnFailure::Abort { context: None },
        }
    }

    /// A step whose request may fail without consequence.
    pub fn may(request: Request) -> (step: Step)
        ensures
            step@ == may(request@),
    {
        Step { request, on_success: OnSuccess::Continue, on_failure: OnFailure::Skip(0) }
    }
}

/// A request to write a string value.
pub open spec fn set_text(key: Key, name: Seq<char>, text: Seq<char>) -> RequestView {
    Request::SetValue { key, name, value: Value::Sz(text) }
}

impl Request {
    /// Opens a sub key, creating it where it does not exist.
    pub fn create_key(parent: Key, sub_key: &str, access: Access, opened: Key) -> (request: Request)
        ensures
            request@ == (Request::CreateKey { parent, sub_key: sub_key@, access, opened }),
    {
        Request::CreateKey { parent, sub_key: sub_key.to_string(), access, opened }
    }

    /// Writes a string value.
    pub fn set_text(key: Key, name: &str, text: &str) -> (request: Request)
        ensures
            request@ == set_text(key, name@, text@),
    {
        Request::SetValue { key, name: name.to_string(), value: Value::Sz(text.to_string()) }
    }

    /// Writes a string to the default value.
    pub fn set_default(key: Key, text: &str) -> (request: Request)
        ensures
            request@ == set_text(key, Seq::empty(), text@),
    {
        Request::SetValue { key, name: String::new(), value: Value::Sz(text.to_string()) }
    }

    /// Writes an empty string.
    pub fn set_empty(key: Key, name: &str) -> (request: Request)
        ensures
            request@ == set_text(key, name@, Seq::empty()),
    {
        Request::SetValue { key, name: name.to_string(), value: Value::Sz(String::new()) }
    }

    /// Clears the default value.
    pub fn clear_default(key: Key) -> (request: Request)
        ensures
            request@ == set_text(key, Seq::empty(), Seq::empty()),
    {
        Request::SetValue { key, name: String::new(), value: Value::Sz(String::new()) }
    }

    /// Reads the default value.
    pub fn get_default(key: Key) -> (request: Request)
        ensures
            request@ == (Request::GetValue {
                key,
                sub_key: Seq::<char>::empty(),
                name: Seq::<char>::empty(),
            }),
    {
        Request::GetValue { key, sub_key: String::new(), name: String::new() }
    }

    /// Writes a number.
    pub fn set_number(key: Key, name: &str, number: u32) -> (request: Request)
        ensures
            request@ == (Request::SetValue { key, name: name@, value: Value::Dword(number) }),
    {
        Request::SetValue { key, name: name.to_string(), value: Value::Dword(number) }
    }

    /// Deletes a sub key and all that is below it.
    pub fn delete_tree(key: Key, sub_key: &str) -> (request: Request)
        ensures
            request@ == (Request::DeleteTree { key, sub_key: sub_key@ }),
    {
        Request::DeleteTree { key, sub_key: sub_key.to_string() }
    }

    /// Deletes a sub key that has no sub keys of its own.
    pub fn delete_key(key: Key, sub_key: &str) -> (request: Request)
        ensures
            request@ == (Request::DeleteKey { key, sub_key: sub_key@ }),
    {
        Request::DeleteKey { key, sub_key: sub_key.to_string() }
    }
}

/// The steps of an operation, and its outcome when they are through.
#[derive(Debug, PartialEq, Eq)]
pub struct Plan {
    pub steps: Vec<Step>,
    pub outcome: Result<(), Failure>,
}

/// What is left of an operation: the steps still to be taken, and the outcome
/// when they are through. It has ended when no step is left.
#[verifier::ext_equal]
pub struct PlanView {
    pub steps: Seq<StepView>,
    pub outcome: Result<(), FailureView>,
}

/// The steps of a list, each by its view.
pub open spec fn steps_view(steps: Seq<Step>) -> Seq<StepView> {
    steps.map_values(|step: Step| step@)
}

impl View for Plan {
    type V = PlanView;

    open spec fn view(&self) -> PlanView {
        PlanView { steps: steps_view(self.steps@), outcome: outcome_view(self.outcome) }
    }
}

/// A plan that succeeds when all its steps are through.
pub open spec fn plan_of(steps: Seq<StepView>) -> PlanView {
    PlanView { steps, outcome: Ok(()) }
}

/// The steps of a scope whose failure is ignored: where a step would fail the
/// operation, the rest of the scope is left out instead.
pub open spec fn absorb(steps: Seq<StepView>) -> Seq<StepView> {
    Seq::new(
        steps.len(),
        |i: int|
            match steps[i].on_failure {
                OnFailure::Abort { .. } => Step {
                    on_failure: OnFailure::Skip((steps.len() - 1 - i) as nat),
                    ..steps[i]
                },
                OnFailure::Skip(_) => steps[i],
            },
    )
}

impl PlanView {
    /// No step is left.
    pub open spec fn ended(self) -> bool {
        self.steps.len() == 0
    }

    /// The plan without its first `n` steps.
    pub open spec fn without_first(self, n: nat) -> PlanView {
        PlanView {
            steps: if n <= self.steps.len() {
                self.steps.skip(n as int)
            } else {
                Seq::empty()
            },
            ..self
        }
    }

    /// What is left after the reply to the first request.
    pub open spec fn advance(self, reply: ReplyView) -> PlanView
        recommends
            !self.ended(),
    {
        let step = self.steps[0];
        match reply {
            Reply::Failed(cause) => match step.on_failure {
                OnFailure::Abort { context } => PlanView {
                    steps: Seq::empty(),
                    outcome: Err(Failure::Registry { context, cause }),
                },
                OnFailure::Skip(n) => self.without_first(n + 1),
            },
            _ => match step.on_success {
                OnSuccess::Continue => self.without_first(1),
                OnSuccess::ContinueIfText { text, otherwise_skip } => if reply == Reply::Text(
                    text,
                ) {
                    self.without_first(1)
                } else {
                    self.without_first(otherwise_skip + 1)
                },
            },
        }
    }

    /// This plan, then another.
    pub open spec fn then_plan(self, next: PlanView) -> PlanView {
        PlanView { steps: self.steps + next.steps, outcome: next.outcome }
    }

    /// This plan with its failures ignored.
    pub open spec fn absorbed(self) -> PlanView {
        PlanView { steps: absorb(self.steps), outcome: Ok(()) }
    }
}

impl Plan {
    /// A plan of no steps, which succeeds.
    pub fn new() -> (plan: Plan)
        ensures
            plan@ == plan_of(Seq::empty()),
    {
        let plan = Plan { steps: Vec::new(), outcome: Ok(()) };
        assert(plan@.steps =~= Seq::empty());
        plan
    }

    /// Adds a step at the end.
    pub fn push(&mut self, step: Step)
        ensures
            final(self)@ == (PlanView {
                steps: old(self)@.steps.push(step@),
                outcome: old(self)@.outcome,
            }),
    {
        self.steps.push(step);
        assert(self@.steps =~= old(self)@.steps.push(step@));
    }

    /// Adds the steps of another plan at the end; its outcome is the outcome now.
    pub fn append(&mut self, next: Plan)
        ensures
            final(self)@ == old(self)@.then_plan(next@),
    {
        let mut next = next;
        let ghost added = next@;
        self.steps.append(&mut next.steps);
        self.outcome = next.outcome;
        assert(self@.steps =~= old(self)@.steps + added.steps);
    }

    /// The same plan with its failures ignored.
    pub fn absorb(self) -> (plan: Plan)
        ensures
            plan@ == self@.absorbed(),
    {
        let mut steps = self.steps;
        let ghost whole = steps@;
        let count: usize = steps.len();
        let mut i: usize = 0;
        while i < count
            invariant
                i <= count,
                steps@.len() == count,
                whole.len() == count,
                forall|j: int| 0 <= j < i ==> (#[trigger] steps@[j])@ == absorb(steps_view(whole))[j],
                forall|j: int| i <= j < count ==> steps@[j] == whole[j],
            decreases count - i,
        {
            let ghost before = steps@;
            assert(steps_view(whole)[i as int] == whole[i as int]@);
            if let OnFailure::Abort { .. } = &steps[i].on_failure {
                steps[i].on_failure = OnFailure::Skip(count - 1 - i);
            }
            assert(steps@[i as int]@ == absorb(steps_view(whole))[i as int]);
            assert(forall|j: int| 0 <= j < count && j != i ==> steps@[j] == before[j]);
            i = i + 1;
        }
        let plan = Plan { steps, outcome: Ok(()) };
        assert(plan@.steps =~= absorb(steps_view(whole)));
        plan
    }
}

} // verus!
