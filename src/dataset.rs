//! Choosing which loaded records are analyzed.

use vstd::prelude::*;
use crate::text::chars_of;

verus! {

/// `s` ends with `suffix`.
pub open spec fn ends_with_seq(s: Seq<char>, suffix: Seq<char>) -> bool {
    suffix.len() <= s.len() && s.subrange(s.len() - suffix.len(), s.len() as int) == suffix
}

/// A loaded record: when it was written and its text.
#[derive(Debug, Clone)]
pub struct Record {
    pub created_at: String,
    pub full_text: String,
}

/// The texts of the records whose date ends with `suffix`, in record order.
pub open spec fn texts_with_date_suffix(records: Seq<Record>, suffix: Seq<char>) -> Seq<String>
    decreases records.len(),
{
    if records.len() == 0 {
        Seq::empty()
    } else {
        let rest = texts_with_date_suffix(records.drop_last(), suffix);
        if ends_with_seq(records.last().created_at@, suffix) {
            rest.push(records.last().full_text)
        } else {
            rest
        }
    }
}

/// Whether `s` ends with `suffix`.
pub fn ends_with_chars(s: &Vec<char>, suffix: &Vec<char>) -> (r: bool)
    ensures
        r == ends_with_seq(s@, suffix@),
{
    if suffix.len() > s.len() {
        return false;
    }
    let n = s.len();
    let start = n - suffix.len();
    let mut k: usize = 0;
    while k < suffix.len()
        invariant
            n == s@.len(),
            start + suffix@.len() == s@.len(),
            k <= suffix@.len(),
            s@.subrange(start as int, start + k) == suffix@.take(k as int),
        decreases suffix@.len() - k,
    {
        if s[start + k] != suffix[k] {
            assert(s@.subrange(start as int, s@.len() as int)[k as int] != suffix@[k as int]);
            return false;
        }
        assert(s@.subrange(start as int, start + k + 1) =~= suffix@.take(k + 1));
        k = k + 1;
    }
    assert(suffix@.take(k as int) =~= suffix@);
    true
}

/// The texts of the records written in the period whose dates end with `suffix`
/// (a year, for dates such as "Sat Jan 07 12:00:00 +0000 2023").
pub fn select_texts(records: &Vec<Record>, suffix: &str) -> (r: Vec<String>)
    ensures
        r@ == texts_with_date_suffix(records@, suffix@),
{
    let suf = chars_of(suffix);
    let mut out: Vec<String> = Vec::new();
    for i in 0..records.len()
        invariant
            suf@ == suffix@,
            out@ == texts_with_date_suffix(records@.take(i as int), suffix@),
    {
        let date = chars_of(records[i].created_at.as_str());
        if ends_with_chars(&date, &suf) {
            out.push(records[i].full_text.clone());
        }
        assert(records@.take(i + 1).drop_last() =~= records@.take(i as int));
    }
    assert(records@.take(records@.len() as int) =~= records@);
    out
}

} // verus!
