//! The settings of a crawl, as the command line gives them: the bound of the
//! random delay before each fetch, and the resource to start from.

use crate::text::chars_of;
use vstd::prelude::*;

verus! {

/// The bound of the delay where none is given, in milliseconds.
pub const DEFAULT_WAIT_MS: u64 = 10000;

/// A bound of the delay below this one has to be confirmed.
pub const CAREFUL_WAIT_MS: u64 = 5000;

/// The resource to start from where none is given.
pub open spec fn default_origin() -> Seq<char> {
    "special:random"@
}

/// What the command line asks for.
pub struct Settings {
    /// The delay before each fetch is drawn below this bound, in
    /// milliseconds.
    pub wait_ms: u64,
    /// The resource to start from.
    pub origin: String,
}

/// What is to be done with a command line.
pub enum Plan {
    /// Crawl with these settings.
    Run { settings: Settings },
    /// Crawl with these settings once the user has agreed to the short delay.
    Confirm { settings: Settings },
    /// Two arguments of which neither is a number: give up.
    Reject,
}

/// Whether `c` is a decimal digit.
pub open spec fn is_digit(c: char) -> bool {
    '0' <= c <= '9'
}

/// The number that the decimal digits write.
pub open spec fn value_of(digits: Seq<char>) -> nat
    decreases digits.len(),
{
    if digits.len() == 0 {
        0
    } else {
        (value_of(digits.drop_last()) * 10 + (digits.last() as nat - '0' as nat)) as nat
    }
}

/// Whether `text` holds decimal digits only.
pub open spec fn all_digits(text: Seq<char>) -> bool {
    forall|i: int| 0 <= i < text.len() ==> is_digit(#[trigger] text[i])
}

/// `text` without the `+` in front of it, if there is one.
pub open spec fn unsigned(text: Seq<char>) -> Seq<char> {
    if text.len() > 0 && text[0] == '+' {
        text.skip(1)
    } else {
        text
    }
}

/// The number that `text` reads as: decimal digits, at least one, behind at
/// most one `+`, that write a number within `u64`. Other texts read as none.
pub open spec fn reads_as(text: Seq<char>) -> Option<u64> {
    let digits = unsigned(text);
    if digits.len() > 0 && all_digits(digits) && value_of(digits) <= u64::MAX {
        Some(value_of(digits) as u64)
    } else {
        None
    }
}

/// The plan for a delay bound and an origin that were given.
pub open spec fn plan_with(wait_ms: u64, origin: Seq<char>, plan: Plan) -> bool {
    if wait_ms < CAREFUL_WAIT_MS {
        plan matches Plan::Confirm { settings } && settings.wait_ms == wait_ms && settings.origin@
            == origin
    } else {
        plan matches Plan::Run { settings } && settings.wait_ms == wait_ms && settings.origin@
            == origin
    }
}

/// Whether `plan` is what the arguments ask for. The first argument is the
/// name of the program. Of the two that follow, one is the bound of the
/// delay and the other the resource to start from, in either order; a single
/// one is the bound if it reads as a number and the resource if not.
pub open spec fn planned(args: Seq<Seq<char>>, plan: Plan) -> bool {
    if args.len() <= 1 {
        plan_with(DEFAULT_WAIT_MS, default_origin(), plan)
    } else if args.len() == 2 {
        match reads_as(args[1]) {
            Some(wait_ms) => plan_with(wait_ms, default_origin(), plan),
            None => plan_with(DEFAULT_WAIT_MS, args[1], plan),
        }
    } else {
        match reads_as(args[1]) {
            Some(wait_ms) => plan_with(wait_ms, args[2], plan),
            None => match reads_as(args[2]) {
                Some(wait_ms) => plan_with(wait_ms, args[1], plan),
                None => plan is Reject,
            },
        }
    }
}

/// The value of longer digits is no less than that of their beginning.
proof fn lemma_value_grows(digits: Seq<char>, upto: int)
    requires
        0 <= upto <= digits.len(),
        all_digits(digits),
    ensures
        value_of(digits.take(upto)) <= value_of(digits),
    decreases digits.len() - upto,
{
    if upto == digits.len() {
        assert(digits.take(upto) =~= digits);
    } else {
        let longer = digits.take(upto + 1);
        assert(longer.drop_last() =~= digits.take(upto));
        assert(is_digit(digits[upto]));
        assert(longer.last() == digits[upto]);
        lemma_value_grows(digits, upto + 1);
    }
}

/// Reads `text` as a number.
pub fn parse_wait(text: &str) -> (number: Option<u64>)
    ensures
        number == reads_as(text@),
{
    let chars = chars_of(text);
    let start: usize = if chars.len() > 0 && chars[0] == '+' {
        1
    } else {
        0
    };
    let ghost digits = unsigned(text@);
    proof {
        assert(digits =~= chars@.skip(start as int));
    }
    if chars.len() == start {
        return None;
    }
    let mut value: u64 = 0;
    let mut i: usize = start;
    proof {
        assert(digits.take(0) =~= Seq::<char>::empty());
    }
    while i < chars.len()
        invariant
            start <= i <= chars.len(),
            digits == chars@.skip(start as int),
            digits == unsigned(text@),
            forall|k: int| 0 <= k < i - start ==> is_digit(#[trigger] digits[k]),
            value == value_of(digits.take(i - start)),
        decreases chars.len() - i,
    {
        let c = chars[i];
        proof {
            assert(digits[i - start] == c);
        }
        if c < '0' || c > '9' {
            proof {
                assert(!is_digit(digits[i - start]));
            }
            return None;
        }
        let digit: u64 = (c as u32 - '0' as u32) as u64;
        let ghost longer = digits.take(i - start + 1);
        proof {
            assert(longer.drop_last() =~= digits.take(i - start));
            assert(longer.last() == c);
            assert(value_of(longer) == value * 10 + digit);
        }
        let grown = match value.checked_mul(10) {
            Some(tens) => tens.checked_add(digit),
            None => None,
        };
        match grown {
            Some(next) => {
                value = next;
            },
            None => {
                proof {
                    assert(value_of(longer) > u64::MAX);
                    if all_digits(digits) {
                        lemma_value_grows(digits, i - start + 1);
                    }
                }
                return None;
            },
        }
        i += 1;
    }
    proof {
        assert(digits.take(i - start) =~= digits);
    }
    Some(value)
}

/// The plan for a delay bound and an origin.
fn plan_for(wait_ms: u64, origin: &str) -> (plan: Plan)
    ensures
        plan_with(wait_ms, origin@, plan),
{
    let settings = Settings { wait_ms, origin: String::from_str(origin) };
    if wait_ms < CAREFUL_WAIT_MS {
        Plan::Confirm { settings }
    } else {
        Plan::Run { settings }
    }
}

/// Reads the arguments of the command line.
pub fn read_arguments(args: &Vec<String>) -> (plan: Plan)
    ensures
        planned(args.deep_view(), plan),
{
    proof {
        assert(forall|i: int| 0 <= i < args.len() ==> args.deep_view()[i] == args[i]@);
    }
    if args.len() <= 1 {
        plan_for(DEFAULT_WAIT_MS, "special:random")
    } else if args.len() == 2 {
        match parse_wait(args[1].as_str()) {
            Some(wait_ms) => plan_for(wait_ms, "special:random"),
            None => plan_for(DEFAULT_WAIT_MS, args[1].as_str()),
        }
    } else {
        match parse_wait(args[1].as_str()) {
            Some(wait_ms) => plan_for(wait_ms, args[2].as_str()),
            None => match parse_wait(args[2].as_str()) {
                Some(wait_ms) => plan_for(wait_ms, args[1].as_str()),
                None => Plan::Reject,
            },
        }
    }
}

/// Whether the line that the user gave agrees to a short delay: it does if it
/// reads `y` and nothing else, not even a line end.
pub fn agrees(line: &str) -> (yes: bool)
    ensures
        yes == (line@ == seq!['y']),
{
    let chars = chars_of(line);
    let yes = chars.len() == 1 && chars[0] == 'y';
    proof {
        if yes {
            assert(line@ =~= seq!['y']);
        }
    }
    yes
}

} // verus!
