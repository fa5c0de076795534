//! Graceful switching between policies. There is always one or two child
//! policies. With one, all operations go to it. When the type of child
//! policy changes, a pending child is built beside the active one; once the
//! pending child leaves `Connecting`, or the active one is not `Ready`, the
//! pending child is promoted to active and the other one torn down.

use crate::client::ConnectivityState;
use vstd::prelude::*;

verus! {

/// The children an update keeps, by policy name: the policy of the update,
/// which receives it, then the active policy if it is another one (so that
/// it is not torn down). With no active policy yet, the policy of the
/// update becomes the active one.
pub open spec fn update_children_spec(incoming: Seq<char>, active: Option<Seq<char>>) -> (Seq<char>, Seq<Seq<char>>) {
    let a = match active {
        Some(a) => a,
        None => incoming,
    };
    (a, if a == incoming {
        seq![incoming]
    } else {
        seq![incoming, a]
    })
}

pub open spec fn strings_view(s: Seq<String>) -> Seq<Seq<char>> {
    s.map_values(|x: String| x@)
}

/// The active policy after an update, and the children to keep; see
/// `update_children_spec`.
pub fn update_children(incoming: &str, active: Option<&str>) -> (r: (String, Vec<String>))
    ensures
        (r.0@, strings_view(r.1@)) == update_children_spec(
            incoming@,
            match active {
                Some(a) => Some(a@),
                None => None,
            },
        ),
{
    let a = match active {
        Some(a) => String::from_str(a),
        None => String::from_str(incoming),
    };
    let mut children: Vec<String> = Vec::new();
    children.push(String::from_str(incoming));
    let inc = String::from_str(incoming);
    if a != inc {
        children.push(a.clone());
    }
    proof {
        if a@ == incoming@ {
            assert(strings_view(children@) =~= seq![incoming@]);
        } else {
            assert(strings_view(children@) =~= seq![incoming@, a@]);
        }
    }
    (a, children)
}

/// What the graceful switch publishes after its children changed.
#[derive(Debug, Clone, Copy, PartialEq, Eq, Structural)]
pub enum SwapDecision {
    /// Nothing: no child updated, or there is no child yet.
    Nothing,
    /// The state of the child at this index, which stays active.
    Publish(usize),
    /// The child at this index is promoted to active, the other one torn
    /// down, and its state published.
    Promote(usize),
}

/// The index of the last name equal to `a` (`want`) or different from it
/// (`!want`), or -1.
pub open spec fn last_match(names: Seq<Seq<char>>, a: Seq<char>, want: bool) -> int
    decreases names.len(),
{
    if names.len() == 0 {
        -1
    } else if (names.last() == a) == want {
        names.len() - 1
    } else {
        last_match(names.drop_last(), a, want)
    }
}

/// The decision after the children changed: see `SwapDecision`. The active
/// child is the (last) one with the active policy's name, the pending one
/// the (last) other one.
pub open spec fn swap_spec(
    updated: bool,
    active: Option<Seq<char>>,
    names: Seq<Seq<char>>,
    states: Seq<ConnectivityState>,
) -> SwapDecision {
    if !updated {
        SwapDecision::Nothing
    } else {
        match active {
            None => SwapDecision::Nothing,
            Some(a) => {
                let ai = last_match(names, a, true);
                let pi = last_match(names, a, false);
                if pi < 0 {
                    SwapDecision::Publish(ai as usize)
                } else if states[ai] == ConnectivityState::Ready && states[pi] == ConnectivityState::Connecting {
                    SwapDecision::Publish(ai as usize)
                } else {
                    SwapDecision::Promote(pi as usize)
                }
            },
        }
    }
}

proof fn lemma_last_match(names: Seq<Seq<char>>, a: Seq<char>, want: bool)
    ensures
        -1 <= last_match(names, a, want) < names.len(),
        last_match(names, a, want) >= 0 ==> (names[last_match(names, a, want)] == a) == want,
        (exists|i: int| 0 <= i < names.len() && (names[i] == a) == want) ==> last_match(names, a, want) >= 0,
        forall|i: int| last_match(names, a, want) < i < names.len() ==> (names[i] == a) != want,
    decreases names.len(),
{
    if names.len() > 0 {
        lemma_last_match(names.drop_last(), a, want);
        if (names.last() == a) != want {
            assert forall|i: int| last_match(names, a, want) < i < names.len() implies (names[i] == a) != want by {
                if i < names.len() - 1 {
                    assert(names.drop_last()[i] == names[i]);
                }
            }
            if last_match(names, a, want) >= 0 {
                assert(names.drop_last()[last_match(names, a, want)] == names[last_match(names, a, want)]);
            }
            if exists|i: int| 0 <= i < names.len() && (names[i] == a) == want {
                let i = choose|i: int| 0 <= i < names.len() && (names[i] == a) == want;
                assert(names.drop_last()[i] == names[i]);
            }
        }
    }
}

fn find_last(names: &Vec<String>, a: &String, want: bool) -> (r: Option<usize>)
    ensures
        match r {
            Some(i) => i == last_match(strings_view(names@), a@, want),
            None => last_match(strings_view(names@), a@, want) == -1,
        },
{
    let ghost v = strings_view(names@);
    proof {
        lemma_last_match(v, a@, want);
    }
    let mut j: usize = names.len();
    while j > 0
        invariant
            0 <= j <= names@.len(),
            v == strings_view(names@),
            forall|i: int| j <= i < v.len() ==> (v[i] == a@) != want,
            -1 <= last_match(v, a@, want) < v.len(),
            last_match(v, a@, want) >= 0 ==> (v[last_match(v, a@, want)] == a@) == want,
            forall|i: int| last_match(v, a@, want) < i < v.len() ==> (v[i] == a@) != want,
        decreases j,
    {
        proof {
            assert(v[j - 1] == names@[j - 1]@);
        }
        if (names[j - 1] == *a) == want {
            return Some(j - 1);
        }
        j = j - 1;
    }
    None
}

/// Decides what to publish after the children changed; see `swap_spec`.
/// The children are given by the names of their policies and their states.
pub fn swap_decision(
    updated: bool,
    active: Option<&String>,
    names: &Vec<String>,
    states: &Vec<ConnectivityState>,
) -> (r: SwapDecision)
    requires
        names@.len() == states@.len(),
        updated && active is Some ==> strings_view(names@).contains(active->0@),
    ensures
        r == swap_spec(
            updated,
            match active {
                Some(a) => Some(a@),
                None => None,
            },
            strings_view(names@),
            states@,
        ),
{
    if !updated {
        return SwapDecision::Nothing;
    }
    let a = match active {
        Some(a) => a,
        None => {
            return SwapDecision::Nothing;
        },
    };
    proof {
        lemma_last_match(strings_view(names@), a@, true);
        lemma_last_match(strings_view(names@), a@, false);
    }
    let ai = match find_last(names, a, true) {
        Some(i) => i,
        None => {
            proof {
                let k = choose|k: int| 0 <= k < names@.len() && strings_view(names@)[k] == a@;
                assert((strings_view(names@)[k] == a@) == true);
            }
            0
        },
    };
    match find_last(names, a, false) {
        None => SwapDecision::Publish(ai),
        Some(pi) => {
            if states[ai] == ConnectivityState::Ready && states[pi] == ConnectivityState::Connecting {
                SwapDecision::Publish(ai)
            } else {
                SwapDecision::Promote(pi)
            }
        },
    }
}

/// A pending child is promoted as soon as it is not connecting or the active
/// child is not ready; until then the active child's state is published.
pub proof fn lemma_promotion(
    active: Seq<char>,
    names: Seq<Seq<char>>,
    states: Seq<ConnectivityState>,
    pending: int,
)
    requires
        names.len() == states.len(),
        names.contains(active),
        0 <= pending < names.len(),
        names[pending] != active,
        forall|i: int| 0 <= i < names.len() && names[i] != active ==> i == pending,
    ensures
        swap_spec(true, Some(active), names, states) == if states[last_match(names, active, true)]
            == ConnectivityState::Ready && states[pending] == ConnectivityState::Connecting {
            SwapDecision::Publish(last_match(names, active, true) as usize)
        } else {
            SwapDecision::Promote(pending as usize)
        },
{
    lemma_last_match(names, active, true);
    lemma_last_match(names, active, false);
}

/// Which entry of a graceful-switch configuration (a list of single-policy
/// objects) is used.
#[derive(Debug, Clone, Copy, PartialEq, Eq, Structural)]
pub enum ConfigChoice {
    /// The entry at this index names a supported policy and is used.
    Use(usize),
    /// The entry at this index does not hold exactly one policy: the
    /// configuration is refused.
    Malformed(usize),
    /// No entry names a supported policy: the configuration is refused.
    NoneSupported,
}

/// Entries before `j` all hold one policy, which is not supported: they
/// are skipped.
pub open spec fn skipped_before(key_counts: Seq<usize>, supported: Seq<bool>, j: int) -> bool {
    forall|i: int| 0 <= i < j ==> key_counts[i] == 1 && !supported[i]
}

/// Chooses the entry of a graceful-switch configuration to use, given for
/// each entry how many policies it holds and whether its policy is
/// supported (registered): the first entry that does not hold exactly one
/// policy, or that names a supported policy, decides; entries of
/// unsupported policies are skipped.
pub fn choose_child_config(key_counts: &Vec<usize>, supported: &Vec<bool>) -> (r: ConfigChoice)
    requires
        key_counts@.len() == supported@.len(),
    ensures
        match r {
            ConfigChoice::Use(j) => j < key_counts@.len() && key_counts@[j as int] == 1 && supported@[j as int]
                && skipped_before(key_counts@, supported@, j as int),
            ConfigChoice::Malformed(j) => j < key_counts@.len() && key_counts@[j as int] != 1 && skipped_before(
                key_counts@,
                supported@,
                j as int,
            ),
            ConfigChoice::NoneSupported => skipped_before(key_counts@, supported@, key_counts@.len() as int),
        },
{
    let mut i: usize = 0;
    while i < key_counts.len()
        invariant
            0 <= i <= key_counts@.len(),
            key_counts@.len() == supported@.len(),
            skipped_before(key_counts@, supported@, i as int),
        decreases key_counts@.len() - i,
    {
        if key_counts[i] != 1 {
            return ConfigChoice::Malformed(i);
        }
        if supported[i] {
            return ConfigChoice::Use(i);
        }
        i = i + 1;
    }
    ConfigChoice::NoneSupported
}

} // verus!
