use vstd::prelude::*;
use vstd::string::StrSliceExecFns;

use crate::ordering::OrderKey;

verus! {

/// The ordering strategies a batch can be built with.
#[derive(Clone, Copy, Debug, PartialEq, Eq, Structural)]
pub enum Strategy {
    /// Highest gas price first; exploitable by outbidding.
    Priority,
    /// First come, first served by timestamp.
    Fair,
    /// A fresh uniformly drawn order on every call.
    Random,
}

/// A strategy was requested by a name that no strategy has.
#[derive(Debug, PartialEq, Eq)]
pub struct UnknownStrategy {
    pub name: String,
}

/// The strategy called `name`, if any.
pub open spec fn strategy_named(name: Seq<char>) -> Option<Strategy> {
    if name == "priority"@ {
        Some(Strategy::Priority)
    } else if name == "fair"@ {
        Some(Strategy::Fair)
    } else if name == "random"@ {
        Some(Strategy::Random)
    } else {
        None
    }
}

fn same_text(a: &str, b: &str) -> (r: bool)
    ensures
        r == (a@ == b@),
{
    let n = a.unicode_len();
    if n != b.unicode_len() {
        return false;
    }
    let mut i: usize = 0;
    while i < n
        invariant
            n == a@.len(),
            n == b@.len(),
            i <= n,
            forall|k: int| 0 <= k < i ==> a@[k] == b@[k],
        decreases n - i,
    {
        if a.get_char(i) != b.get_char(i) {
            return false;
        }
        i = i + 1;
    }
    proof {
        assert(a@ =~= b@);
    }
    true
}

impl Strategy {
    /// The key a deterministic strategy sorts by; `None` for the random one.
    pub open spec fn sort_key(self) -> Option<OrderKey> {
        match self {
            Strategy::Priority => Some(OrderKey::GasPriceDescending),
            Strategy::Fair => Some(OrderKey::TimestampAscending),
            Strategy::Random => None,
        }
    }

    /// Looks a strategy up by its name: "priority", "fair" or "random".
    pub fn from_name(name: &str) -> (r: Result<Strategy, UnknownStrategy>)
        ensures
            match strategy_named(name@) {
                Some(s) => r == Ok::<Strategy, UnknownStrategy>(s),
                None => r matches Err(e) && e.name@ == name@,
            },
    {
        if same_text(name, "priority") {
            Ok(Strategy::Priority)
        } else if same_text(name, "fair") {
            Ok(Strategy::Fair)
        } else if same_text(name, "random") {
            Ok(Strategy::Random)
        } else {
            Err(UnknownStrategy { name: name.to_owned() })
        }
    }
}

} // verus!
