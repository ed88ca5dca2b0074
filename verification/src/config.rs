//! Session configuration and the decisions of the settings screens: depth
//! input parsing, exclusion-list editing, command-flavor toggling.
//!
//! Reading and writing the persisted file is the caller's concern; this
//! module owns every decision about the values.

use vstd::prelude::*;
use vstd::string::StrSliceExecFns;

use crate::strutil::{contains_string, views_of};

verus! {

/// Runtime configuration: discovery bounds and the compose command flavor.
#[derive(Debug)]
pub struct Config {
    /// Maximum recursion depth for discovery; `None` means unbounded.
    pub max_depth: Option<usize>,
    /// User-configured directory names to skip, besides the built-in ones.
    pub excluded_dirs: Vec<String>,
    /// Use the legacy single-binary command instead of the subcommand form.
    pub legacy_compose: bool,
}

impl Default for Config {
    /// A bounded default depth, no user exclusions, the modern command.
    fn default() -> (c: Config)
        ensures
            c.max_depth == Option::Some(7usize),
            c.excluded_dirs@.len() == 0,
            !c.legacy_compose,
    {
        Config { max_depth: Option::Some(7), excluded_dirs: Vec::new(), legacy_compose: false }
    }
}

/// ASCII whitespace, as the settings input fields strip it.
pub open spec fn is_space(c: char) -> bool {
    c == ' ' || c == '\t' || c == '\n' || c == '\r'
}

/// The string is empty once trimmed.
pub open spec fn all_space(s: Seq<char>) -> bool {
    forall|i: int| 0 <= i < s.len() ==> is_space(s[i])
}

/// `s` with leading whitespace removed.
pub open spec fn trim_front(s: Seq<char>) -> Seq<char>
    decreases s.len(),
{
    if s.len() > 0 && is_space(s[0]) {
        trim_front(s.skip(1))
    } else {
        s
    }
}

/// `s` with trailing whitespace removed.
pub open spec fn trim_back(s: Seq<char>) -> Seq<char>
    decreases s.len(),
{
    if s.len() > 0 && is_space(s.last()) {
        trim_back(s.drop_last())
    } else {
        s
    }
}

/// `s` with leading and trailing whitespace removed.
pub open spec fn trim_of(s: Seq<char>) -> Seq<char> {
    trim_back(trim_front(s))
}

fn is_space_char(c: char) -> (r: bool)
    ensures
        r == is_space(c),
{
    c == ' ' || c == '\t' || c == '\n' || c == '\r'
}

/// The trimmed copy of `s`.
pub fn trim_str(s: &str) -> (r: String)
    ensures
        r@ == trim_of(s@),
{
    let len = s.unicode_len();
    proof {
        assert(s@.skip(0) =~= s@);
    }
    let mut i: usize = 0;
    while i < len && is_space_char(s.get_char(i))
        invariant
            i <= len,
            len == s@.len(),
            trim_front(s@) == trim_front(s@.skip(i as int)),
        decreases len - i,
    {
        proof {
            assert(s@.skip(i as int)[0] == s@[i as int]);
            assert(s@.skip(i as int).skip(1) =~= s@.skip(i + 1 as int));
        }
        i += 1;
    }
    proof {
        if i < len {
            assert(s@.skip(i as int)[0] == s@[i as int]);
        }
        assert(trim_front(s@) == s@.skip(i as int));
    }
    let mut j: usize = len;
    while j > i && is_space_char(s.get_char(j - 1))
        invariant
            i <= j <= len,
            len == s@.len(),
            trim_front(s@) == s@.skip(i as int),
            trim_back(s@.skip(i as int)) == trim_back(s@.subrange(i as int, j as int)),
        decreases j,
    {
        proof {
            let u = s@.subrange(i as int, j as int);
            assert(u.last() == s@[j - 1]);
            assert(u.drop_last() =~= s@.subrange(i as int, j - 1));
        }
        j -= 1;
    }
    let r = s.substring_char(i, j);
    proof {
        let u = s@.subrange(i as int, j as int);
        if j > i {
            assert(u.last() == s@[j - 1]);
        } else {
            assert(u =~= Seq::<char>::empty());
        }
        assert(trim_back(u) == u);
        assert(s@.skip(i as int) =~= s@.subrange(i as int, s@.len() as int));
    }
    r.to_owned()
}

/// Decimal digit.
pub open spec fn is_digit(c: char) -> bool {
    ('0' as u32) <= (c as u32) && (c as u32) <= ('9' as u32)
}

pub open spec fn digit_val(c: char) -> int {
    (c as u32) - ('0' as u32)
}

/// The number denoted by a digit string, most significant digit first.
pub open spec fn digits_value(s: Seq<char>) -> int
    decreases s.len(),
{
    if s.len() == 0 {
        0
    } else {
        digits_value(s.drop_last()) * 10 + digit_val(s.last())
    }
}

/// The digit part of a number token: an optional leading `+` is skipped.
pub open spec fn number_digits(s: Seq<char>) -> Seq<char> {
    if s.len() > 0 && s[0] == '+' {
        s.skip(1)
    } else {
        s
    }
}

/// The token denotes a non-negative decimal number.
pub open spec fn valid_number(s: Seq<char>) -> bool {
    number_digits(s).len() > 0 && forall|i: int|
        0 <= i < number_digits(s).len() ==> is_digit(number_digits(s)[i])
}

proof fn lemma_digits_value_nonneg(s: Seq<char>)
    requires
        forall|k: int| 0 <= k < s.len() ==> is_digit(s[k]),
    ensures
        digits_value(s) >= 0,
    decreases s.len(),
{
    if s.len() > 0 {
        lemma_digits_value_nonneg(s.drop_last());
    }
}

proof fn lemma_digits_value_monotone(s: Seq<char>, i: int)
    requires
        0 <= i <= s.len(),
        forall|k: int| 0 <= k < s.len() ==> is_digit(s[k]),
    ensures
        digits_value(s) >= digits_value(s.take(i)),
    decreases s.len() - i,
{
    if i == s.len() {
        assert(s.take(i) =~= s);
    } else {
        lemma_digits_value_monotone(s, i + 1);
        assert(s.take(i + 1).drop_last() =~= s.take(i));
        assert(s.take(i + 1).last() == s[i]);
        assert(forall|k: int| 0 <= k < s.take(i).len() ==> is_digit(s.take(i)[k]));
        lemma_digits_value_nonneg(s.take(i));
    }
}

/// What the depth field of the settings screen was given.
#[derive(Clone, Copy, Debug, PartialEq, Eq)]
pub enum DepthInput {
    /// Blank input: no depth bound.
    Unlimited,
    /// A number: that bound.
    Depth(usize),
    /// Anything else; the setting is left as it was.
    Invalid,
}

/// Parses the text entered for the maximum search depth: an all-whitespace
/// entry means "unbounded", a decimal number that fits means that depth, and
/// anything else is invalid.
pub fn parse_depth_input(s: &str) -> (r: DepthInput)
    ensures
        match r {
            DepthInput::Unlimited => all_space(s@),
            DepthInput::Depth(d) => !all_space(s@) && valid_number(s@) && d == digits_value(
                number_digits(s@),
            ),
            DepthInput::Invalid => !all_space(s@) && (!valid_number(s@) || digits_value(
                number_digits(s@),
            ) > usize::MAX),
        },
{
    let len = s.unicode_len();
    let mut i: usize = 0;
    let mut spaces_only = true;
    while i < len
        invariant
            i <= len,
            len == s@.len(),
            spaces_only == (forall|k: int| 0 <= k < i ==> is_space(s@[k])),
        decreases len - i,
    {
        if !is_space_char(s.get_char(i)) {
            spaces_only = false;
        }
        i += 1;
    }
    if spaces_only {
        return DepthInput::Unlimited;
    }

    let start: usize = if len > 0 && s.get_char(0) == '+' {
        1
    } else {
        0
    };
    let ghost digits = number_digits(s@);
    proof {
        if start == 0 {
            assert(s@.skip(0) =~= s@);
        }
        assert(digits =~= s@.skip(start as int));
    }
    if start >= len {
        // a bare "+" has no digits
        proof {
            assert(number_digits(s@).len() == 0);
        }
        return DepthInput::Invalid;
    }
    let mut acc: usize = 0;
    let mut i: usize = start;
    while i < len
        invariant
            start <= i <= len,
            len == s@.len(),
            digits == s@.skip(start as int),
            digits == number_digits(s@),
            digits.len() == len - start,
            !all_space(s@),
            forall|k: int| 0 <= k < i - start ==> is_digit(digits[k]),
            acc == digits_value(digits.take(i - start)),
        decreases len - i,
    {
        let c = s.get_char(i);
        let cu = c as u32;
        if cu < '0' as u32 || cu > '9' as u32 {
            proof {
                assert(digits[i - start] == s@[i as int]);
                assert(!is_digit(digits[i - start]));
            }
            return DepthInput::Invalid;
        }
        let d = (cu - '0' as u32) as usize;
        proof {
            assert(digits[i - start] == s@[i as int]);
            assert(digits.take(i - start + 1).drop_last() =~= digits.take(i - start));
            assert(digits.take(i - start + 1).last() == digits[i - start]);
        }
        let step = match acc.checked_mul(10) {
            Option::Some(m) => m.checked_add(d),
            Option::None => Option::None,
        };
        match step {
            Option::Some(v) => {
                acc = v;
            },
            Option::None => {
                proof {
                    assert(digits_value(digits.take(i - start + 1)) > usize::MAX);
                    if valid_number(s@) {
                        lemma_digits_value_monotone(digits, i - start + 1);
                    }
                }
                return DepthInput::Invalid;
            },
        }
        i += 1;
    }
    proof {
        assert(digits.take(digits.len() as int) =~= digits);
        assert(valid_number(s@));
    }
    DepthInput::Depth(acc)
}

/// The outcome of trying to add an exclusion.
#[derive(Clone, Copy, Debug, PartialEq, Eq)]
pub enum AddOutcome {
    /// The trimmed name was new and was appended.
    Added,
    /// The trimmed name was already present; nothing changed.
    AlreadyExcluded,
    /// The trimmed name was empty and not present; nothing changed.
    Empty,
}

/// Names kept after removing every occurrence of `n`.
pub open spec fn remove_name(s: Seq<Seq<char>>, n: Seq<char>) -> Seq<Seq<char>>
    decreases s.len(),
{
    if s.len() == 0 {
        Seq::empty()
    } else {
        remove_name(s.drop_last(), n) + if s.last() == n {
            Seq::empty()
        } else {
            seq![s.last()]
        }
    }
}

impl Config {
    /// Toggle between the legacy and the modern compose command.
    pub fn toggle_legacy(&mut self)
        ensures
            final(self).legacy_compose == !old(self).legacy_compose,
            final(self).max_depth == old(self).max_depth,
            final(self).excluded_dirs == old(self).excluded_dirs,
    {
        self.legacy_compose = !self.legacy_compose;
    }

    /// Apply a parsed depth entry; an invalid one leaves the setting as it
    /// was.
    pub fn apply_depth_input(&mut self, inp: DepthInput) -> (applied: bool)
        ensures
            final(self).excluded_dirs == old(self).excluded_dirs,
            final(self).legacy_compose == old(self).legacy_compose,
            match inp {
                DepthInput::Unlimited => applied && final(self).max_depth is None,
                DepthInput::Depth(d) => applied && final(self).max_depth == Option::Some(d),
                DepthInput::Invalid => !applied && final(self).max_depth == old(self).max_depth,
            },
    {
        match inp {
            DepthInput::Unlimited => {
                self.max_depth = Option::None;
                true
            },
            DepthInput::Depth(d) => {
                self.max_depth = Option::Some(d);
                true
            },
            DepthInput::Invalid => false,
        }
    }

    /// Add a directory name to the exclusion list, trimmed; duplicates and
    /// blank names are refused.
    pub fn add_excluded(&mut self, raw: &str) -> (r: AddOutcome)
        ensures
            final(self).max_depth == old(self).max_depth,
            final(self).legacy_compose == old(self).legacy_compose,
            match r {
                AddOutcome::Added => trim_of(raw@).len() > 0 && !views_of(
                    old(self).excluded_dirs@,
                ).contains(trim_of(raw@)) && views_of(final(self).excluded_dirs@) == views_of(
                    old(self).excluded_dirs@,
                ).push(trim_of(raw@)),
                AddOutcome::AlreadyExcluded => views_of(old(self).excluded_dirs@).contains(
                    trim_of(raw@),
                ) && final(self).excluded_dirs == old(self).excluded_dirs,
                AddOutcome::Empty => trim_of(raw@).len() == 0 && !views_of(
                    old(self).excluded_dirs@,
                ).contains(trim_of(raw@)) && final(self).excluded_dirs == old(self).excluded_dirs,
            },
    {
        let name = trim_str(raw);
        let present = contains_string(&self.excluded_dirs, name.as_str());
        if !name.as_str().is_empty() && !present {
            let ghost pre = self.excluded_dirs@;
            self.excluded_dirs.push(name);
            proof {
                assert(views_of(self.excluded_dirs@) =~= views_of(pre).push(trim_of(raw@)));
            }
            AddOutcome::Added
        } else if present {
            AddOutcome::AlreadyExcluded
        } else {
            AddOutcome::Empty
        }
    }

    /// Remove every occurrence of `name` from the exclusion list.
    pub fn remove_excluded(&mut self, name: &str)
        ensures
            final(self).max_depth == old(self).max_depth,
            final(self).legacy_compose == old(self).legacy_compose,
            views_of(final(self).excluded_dirs@) == remove_name(
                views_of(old(self).excluded_dirs@),
                name@,
            ),
    {
        let ghost all = views_of(self.excluded_dirs@);
        let mut kept: Vec<String> = Vec::new();
        let mut i: usize = 0;
        while i < self.excluded_dirs.len()
            invariant
                i <= all.len(),
                all == views_of(self.excluded_dirs@),
                self.excluded_dirs@.len() == all.len(),
                *self == *old(self),
                views_of(kept@) == remove_name(all.take(i as int), name@),
            decreases all.len() - i,
        {
            let ghost pre = kept@;
            if !crate::strutil::str_eq(self.excluded_dirs[i].as_str(), name) {
                kept.push(self.excluded_dirs[i].clone());
                proof {
                    assert(views_of(pre.push(self.excluded_dirs@[i as int])) =~= views_of(
                        pre,
                    ).push(all[i as int]));
                }
            }
            proof {
                assert(all.take(i + 1 as int).drop_last() =~= all.take(i as int));
                assert(all.take(i + 1 as int).last() == all[i as int]);
                if all[i as int] != name@ {
                    assert(views_of(kept@) =~= remove_name(all.take(i as int), name@) + seq![
                        all[i as int],
                    ]);
                }
            }
            i += 1;
        }
        proof {
            assert(all.take(all.len() as int) =~= all);
        }
        self.excluded_dirs = kept;
    }

    /// Drop every exclusion.
    pub fn clear_excluded(&mut self)
        ensures
            final(self).max_depth == old(self).max_depth,
            final(self).legacy_compose == old(self).legacy_compose,
            final(self).excluded_dirs@.len() == 0,
    {
        self.excluded_dirs.clear();
    }
}

} // verus!
