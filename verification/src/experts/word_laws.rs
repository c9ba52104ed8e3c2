//! What the knobs' words ask for.

use vstd::prelude::*;

use crate::bytes::byte_count;
use crate::experts::plan::Policy;
use crate::experts::words::{caches, headroom_said, policy_said, prefill_said, report_said};
use crate::fault::Fault;
use crate::text::{
    decimal, decimal_text, decimal_text_reads_back, is_digit, lowered, number, trimmed, unsigned,
};
use crate::word_laws::{blank, trimming_takes_the_spaces_off};

verus! {

proof fn lemma_number_said(word: String, n: nat, before: Seq<char>, after: Seq<char>)
    requires
        blank(before),
        blank(after),
        word@ == before + decimal_text(n) + after,
    ensures
        trimmed(word@) == decimal_text(n),
        lowered(decimal_text(n)) == decimal_text(n),
        is_digit(decimal_text(n)[0]),
        decimal_text(n).len() > 0,
        unsigned(decimal_text(n)) == decimal_text(n),
        forall|max: nat| n <= max ==> #[trigger] number(decimal_text(n), max) == Some(n),
        forall|max: nat| n > max ==> #[trigger] number(decimal_text(n), max) is None,
{
    let t = decimal_text(n);
    decimal_text_reads_back(n);
    assert(is_digit(t[0]) && is_digit(t[t.len() - 1]));
    trimming_takes_the_spaces_off(before, t, after);
    assert(lowered(t) =~= t) by {
        assert forall|i: int| 0 <= i < t.len() implies #[trigger] lowered(t)[i] == t[i] by {
            assert(is_digit(t[i]));
        }
    }
    assert(unsigned(t) == t);
}

/// A number asks for that many: seats, rows a prefill is worth its ring at,
/// fires between reports. A cache word beats a budget, and a number of seats
/// that cannot be counted is refused.
pub proof fn a_number_asks_for_that_many(
    word: String,
    n: nat,
    before: Seq<char>,
    after: Seq<char>,
    headroom: Option<String>,
    budget: Option<u64>,
)
    requires
        blank(before),
        blank(after),
        word@ == before + decimal_text(n) + after,
        headroom_said(headroom) is Ok,
    ensures
        n <= u32::MAX ==> policy_said(Some(word), headroom, budget) == Ok::<Policy, Fault>(
            Policy::Slots(n as u32),
        ),
        n > u32::MAX ==> policy_said(Some(word), headroom, budget) is Err,
        prefill_said(Some(word)) == if n <= u32::MAX {
            Some(n as u32)
        } else {
            None
        },
        report_said(Some(word)) == if n <= u64::MAX {
            n as u64
        } else {
            256
        },
        caches(Some(word)) <==> n == 0,
{
    let t = decimal_text(n);
    lemma_number_said(word, n, before, after);
    reveal_strlit("0");
    reveal_strlit("off");
    reveal_strlit("false");
    reveal_strlit("no");
    reveal_strlit("full");
    reveal_strlit("");
    reveal_strlit("auto");
    reveal_strlit("on");
    reveal_strlit("true");
    reveal_strlit("yes");
    assert("off"@[0] == 'o' && "false"@[0] == 'f' && "no"@[0] == 'n' && "full"@[0] == 'f');
    assert("auto"@[0] == 'a' && "on"@[0] == 'o' && "true"@[0] == 't' && "yes"@[0] == 'y');
    assert(""@.len() == 0);
    assert("0"@ =~= seq!['0']);
    if n == 0 {
        assert(t =~= "0"@);
    } else if t == "0"@ {
        decimal_text_reads_back(n);
        assert(t.drop_last() =~= Seq::<char>::empty());
        assert(decimal(t.drop_last()) == 0);
        assert(decimal(t) == 0);
    }
}

/// With no cache word a budget is kept, and with no budget either the pool
/// is sized to the free memory less the headroom: what its word says, or
/// four GiB.
pub proof fn no_word_leaves_it_to_the_budget(headroom: Option<String>, budget: Option<u64>)
    ensures
        headroom is None ==> headroom_said(headroom) == Ok::<u64, Fault>(0x1_0000_0000),
        headroom matches Some(word) ==> (byte_count(word@) matches Some(bytes) ==> headroom_said(headroom)
            == Ok::<u64, Fault>(bytes)),
        headroom matches Some(word) ==> (byte_count(word@) is None ==> headroom_said(headroom) is Err),
        headroom_said(headroom) matches Err(fault) ==> forall|cache: Option<String>| #[trigger]
            policy_said(cache, headroom, budget) == Err::<Policy, Fault>(fault),
        headroom_said(headroom) is Ok && budget is Some ==> policy_said(None, headroom, budget) == Ok::<
            Policy,
            Fault,
        >(Policy::Budget(budget->0)),
        headroom_said(headroom) is Ok && budget is None ==> policy_said(None, headroom, budget) == Ok::<
            Policy,
            Fault,
        >(Policy::Auto { headroom: headroom_said(headroom)->Ok_0 }),
        prefill_said(None) is None,
        !caches(None),
        report_said(None) == 256,
{
}

/// A word turns the pool off or leaves it to itself in any case, with spaces
/// around it or without: two words that are one but for these ask for the
/// same, unless they are refused.
pub proof fn case_and_spaces_do_not_matter(
    a: String,
    b: String,
    headroom: Option<String>,
    budget: Option<u64>,
)
    requires
        lowered(trimmed(a@)) == lowered(trimmed(b@)),
        !(number(trimmed(a@), u32::MAX as nat) is Some) && !(number(trimmed(b@), u32::MAX as nat) is Some),
    ensures
        policy_said(Some(a), headroom, budget) is Ok <==> policy_said(Some(b), headroom, budget) is Ok,
        policy_said(Some(a), headroom, budget) is Ok ==> policy_said(Some(a), headroom, budget)
            == policy_said(Some(b), headroom, budget),
        prefill_said(Some(a)) == prefill_said(Some(b)),
{
}

/// What turns the pool off, and what leaves its size to it.
pub proof fn these_words_are_known(word: String, headroom: Option<String>, budget: Option<u64>)
    requires
        headroom_said(headroom) is Ok,
    ensures
        ({
            let w = lowered(trimmed(word@));
            let said = policy_said(Some(word), headroom, budget);
            &&& w == "off"@ || w == "false"@ || w == "no"@ || w == "full"@ ==> said == Ok::<Policy, Fault>(
                Policy::Off,
            )
            &&& w == ""@ || w == "auto"@ || w == "on"@ || w == "true"@ || w == "yes"@ ==> said == Ok::<Policy, Fault>(
                Policy::Auto { headroom: headroom_said(headroom)->Ok_0 },
            )
            &&& said == Ok::<Policy, Fault>(Policy::Off) ==> w == "off"@ || w == "false"@ || w == "no"@ || w
                == "full"@
            &&& w == "off"@ || w == "false"@ || w == "no"@ ==> prefill_said(Some(word)) == Some(0u32)
            &&& trimmed(word@) == "off"@ || trimmed(word@) == "false"@ || trimmed(word@) == "no"@ ==> caches(
                Some(word),
            )
        }),
{
    reveal_strlit("off");
    reveal_strlit("false");
    reveal_strlit("no");
    reveal_strlit("full");
    reveal_strlit("");
    reveal_strlit("auto");
    reveal_strlit("on");
    reveal_strlit("true");
    reveal_strlit("yes");
    assert("off"@[0] == 'o' && "false"@[0] == 'f' && "no"@[0] == 'n' && "full"@[0] == 'f');
    assert("off"@.len() == 3 && "false"@.len() == 5 && "no"@.len() == 2 && "full"@.len() == 4);
    assert("auto"@[0] == 'a' && "on"@[0] == 'o' && "true"@[0] == 't' && "yes"@[0] == 'y');
    assert("on"@.len() == 2 && ""@.len() == 0);
}

} // verus!
