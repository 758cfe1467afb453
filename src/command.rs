//! Outgoing commands: each ends with exactly one carriage return.
use vstd::prelude::*;
use vstd::string::StringSliceAdditionalSpecFns;
use crate::reassembler::{CR, is_delimiter};

verus! {

/// `s` without the carriage returns and line feeds at its end.
pub open spec fn strip_terminators(s: Seq<u8>) -> Seq<u8>
    decreases s.len(),
{
    if s.len() > 0 && is_delimiter(s.last()) {
        strip_terminators(s.drop_last())
    } else {
        s
    }
}

/// The bytes written for the command of bytes `s`: its own trailing line
/// terminators are replaced by one carriage return.
pub open spec fn normalized(s: Seq<u8>) -> Seq<u8> {
    strip_terminators(s).push(CR)
}

/// A stripped command ends with no terminator.
pub proof fn lemma_stripped_has_no_terminator(s: Seq<u8>)
    ensures
        strip_terminators(s).len() > 0 ==> !is_delimiter(strip_terminators(s).last()),
        strip_terminators(strip_terminators(s)) == strip_terminators(s),
    decreases s.len(),
{
    if s.len() > 0 && is_delimiter(s.last()) {
        lemma_stripped_has_no_terminator(s.drop_last());
    }
}

/// Normalising twice writes the same bytes as normalising once: a command
/// that already ends with its terminator gets no second one.
pub proof fn lemma_normalize_idempotent(s: Seq<u8>)
    ensures
        normalized(normalized(s)) == normalized(s),
{
    let t = strip_terminators(s);
    lemma_stripped_has_no_terminator(s);
    assert(t.push(CR).drop_last() =~= t);
    assert(strip_terminators(t.push(CR)) == strip_terminators(t));
}

/// The bytes to write for `command`: its trailing carriage returns and line
/// feeds are replaced by exactly one carriage return.
pub fn normalize_command(command: &str) -> (r: Vec<u8>)
    ensures
        r@ == normalized(command.spec_bytes()),
        r@.last() == CR,
        r@.len() >= 2 ==> !is_delimiter(r@[r@.len() - 2]),
{
    let bytes = command.as_bytes();
    let mut end: usize = bytes.len();
    assert(bytes@.subrange(0, end as int) =~= bytes@);
    while end > 0 && (bytes[end - 1] == CR || bytes[end - 1] == 10)
        invariant
            end <= bytes@.len(),
            strip_terminators(bytes@.subrange(0, end as int)) == strip_terminators(bytes@),
        decreases end,
    {
        assert(bytes@.subrange(0, end as int).drop_last() =~= bytes@.subrange(0, end - 1));
        end = end - 1;
    }
    let mut r: Vec<u8> = Vec::new();
    let mut k: usize = 0;
    while k < end
        invariant
            k <= end <= bytes@.len(),
            r@ == bytes@.subrange(0, k as int),
        decreases end - k,
    {
        r.push(bytes[k]);
        assert(r@ =~= bytes@.subrange(0, k + 1));
        k = k + 1;
    }
    proof {
        lemma_stripped_has_no_terminator(bytes@);
    }
    r.push(CR);
    r
}

} // verus!
