use vstd::prelude::*;

verus! {

/// How long a delayed message is held when no other delay is given, in milliseconds.
pub const DEFAULT_DELAY_MS: u64 = 4000;

/// What the fault injector does to the messages of its target.
#[derive(PartialEq, Eq, Structural, Debug, Clone, Copy)]
pub enum FaultMode {
    /// Hold each message back for this many milliseconds.
    Delay(u64),
    /// Discard each message.
    Drop,
}

/// Fault injection against one peer, set once at startup.
pub struct FaultPolicy {
    /// The peer whose messages are delayed or dropped.
    pub target: String,
    pub mode: FaultMode,
}

/// A fault policy as the contracts see it.
pub struct PolicyView {
    pub target: Seq<char>,
    pub mode: FaultMode,
}

impl View for FaultPolicy {
    type V = PolicyView;

    open spec fn view(&self) -> PolicyView {
        PolicyView { target: self.target@, mode: self.mode }
    }
}

/// What becomes of one incoming message.
#[derive(PartialEq, Eq, Structural, Debug, Clone, Copy)]
pub enum Verdict {
    /// Straight to the delivery engine.
    Pass,
    /// Held back for this many milliseconds first.
    Delay(u64),
    /// Discarded.
    Drop,
}

/// The views of an optional policy.
pub open spec fn policy_view(p: Option<FaultPolicy>) -> Option<PolicyView> {
    match p {
        Some(q) => Some(q@),
        None => None,
    }
}

/// The verdict on a message from `sender`: only the policy's target is touched.
pub open spec fn verdict(policy: Option<PolicyView>, sender: Seq<char>) -> Verdict {
    match policy {
        Some(p) => if p.target == sender {
            match p.mode {
                FaultMode::Delay(d) => Verdict::Delay(d),
                FaultMode::Drop => Verdict::Drop,
            }
        } else {
            Verdict::Pass
        },
        None => Verdict::Pass,
    }
}

impl FaultPolicy {
    /// Delays the messages of `target` by the default delay.
    pub fn delay(target: String) -> (r: FaultPolicy)
        ensures
            r@ == (PolicyView { target: target@, mode: FaultMode::Delay(DEFAULT_DELAY_MS) }),
    {
        FaultPolicy { target, mode: FaultMode::Delay(DEFAULT_DELAY_MS) }
    }

    /// A copy of the policy.
    pub fn copy(&self) -> (r: FaultPolicy)
        ensures
            r@ == self@,
    {
        FaultPolicy { target: self.target.clone(), mode: self.mode }
    }
}

/// The verdict of `policy` on a message from `sender`.
pub fn inspect(policy: &Option<FaultPolicy>, sender: &String) -> (r: Verdict)
    ensures
        r == verdict(policy_view(*policy), sender@),
{
    match policy {
        Some(p) => {
            if p.target == *sender {
                match p.mode {
                    FaultMode::Delay(d) => Verdict::Delay(d),
                    FaultMode::Drop => Verdict::Drop,
                }
            } else {
                Verdict::Pass
            }
        },
        None => Verdict::Pass,
    }
}

} // verus!
