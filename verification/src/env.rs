//! The program's arguments and environment variables, walked one by one.
//!
//! The raw values (the argument strings, the `NAME=VALUE` entries of the
//! environment) are read from the process by the caller and handed over here.

use vstd::prelude::*;
use vstd::string::StrSliceExecFns;

verus! {

/// The first position of `c` in `s`, if any.
pub open spec fn first_index_of(s: Seq<char>, c: char) -> Option<int> {
    if exists|i: int| 0 <= i < s.len() && s[i] == c {
        Some(choose|i: int| 0 <= i < s.len() && s[i] == c && forall|j: int| 0 <= j < i ==> s[j] != c)
    } else {
        None
    }
}

/// Whether an environment entry has the form `NAME=VALUE`.
pub open spec fn is_var_entry(s: Seq<char>) -> bool {
    exists|i: int| 0 <= i < s.len() && s[i] == '='
}

/// The name and the value of an environment entry: the text before the first
/// `=`, and the text after it.
pub open spec fn var_parts(s: Seq<char>) -> (Seq<char>, Seq<char>) {
    let k = first_index_of(s, '=')->Some_0;
    (s.subrange(0, k), s.subrange(k + 1, s.len() as int))
}

/// The first position of `c` in `s` is `k` when `s[k]` is `c` and no earlier
/// character is.
pub proof fn lemma_first_index(s: Seq<char>, c: char, k: int)
    requires
        0 <= k < s.len(),
        s[k] == c,
        forall|j: int| 0 <= j < k ==> s[j] != c,
    ensures
        first_index_of(s, c) == Some(k),
{
    let i = first_index_of(s, c)->Some_0;
    assert(0 <= i < s.len() && s[i] == c && forall|j: int| 0 <= j < i ==> s[j] != c);
    if i < k {
        assert(s[i] != c);
    }
    if k < i {
        assert(s[k] != c);
    }
}

/// Splits an environment entry at its first `=`.
pub fn split_var(entry: &str) -> (r: (String, String))
    requires
        is_var_entry(entry@),
    ensures
        (r.0@, r.1@) == var_parts(entry@),
{
    let n = entry.unicode_len();
    let mut k: usize = 0;
    while k < n && entry.get_char(k) != '='
        invariant
            n == entry@.len(),
            0 <= k <= n,
            forall|j: int| 0 <= j < k ==> entry@[j] != '=',
            is_var_entry(entry@),
        decreases n - k,
    {
        k = k + 1;
    }
    proof {
        if k == n {
            let i = choose|i: int| 0 <= i < entry@.len() && entry@[i] == '=';
            assert(entry@[i] != '=');
        }
        lemma_first_index(entry@, '=', k as int);
    }
    let name = entry.substring_char(0, k);
    let value = entry.substring_char(k + 1, n);
    (name.to_owned(), value.to_owned())
}

/// The arguments of the program, in order.
pub struct Args {
    items: Vec<String>,
    index: usize,
}

impl View for Args {
    type V = Seq<Seq<char>>;

    /// The arguments not yet handed out.
    closed spec fn view(&self) -> Seq<Seq<char>> {
        self.items@.subrange(self.index as int, self.items@.len() as int).map_values(
            |s: String| s@,
        )
    }
}

impl Args {
    #[verifier::type_invariant]
    closed spec fn inv(self) -> bool {
        self.index <= self.items@.len()
    }

    /// Walks the given arguments from the first.
    pub fn new(items: Vec<String>) -> (r: Args)
        ensures
            r@ == items@.map_values(|s: String| s@),
    {
        let r = Args { items, index: 0 };
        assert(r@ =~= items@.map_values(|s: String| s@));
        r
    }

    /// The next argument, or `None` after the last.
    pub fn next(&mut self) -> (r: Option<String>)
        ensures
            old(self)@.len() == 0 ==> r is None && final(self)@ == old(self)@,
            old(self)@.len() > 0 ==> r is Some && r->Some_0@ == old(self)@[0] && final(self)@
                == old(self)@.drop_first(),
    {
        proof {
            use_type_invariant(&*self);
        }
        if self.index < self.items.len() {
            let s = self.items[self.index].clone();
            self.index = self.index + 1;
            proof {
                assert(final(self)@ =~= old(self)@.drop_first());
            }
            Some(s)
        } else {
            None
        }
    }
}

/// The environment variables of the program, as (name, value) pairs.
pub struct Vars {
    entries: Vec<String>,
    index: usize,
}

impl View for Vars {
    type V = Seq<(Seq<char>, Seq<char>)>;

    /// The pairs not yet handed out.
    closed spec fn view(&self) -> Seq<(Seq<char>, Seq<char>)> {
        self.entries@.subrange(self.index as int, self.entries@.len() as int).map_values(
            |s: String| var_parts(s@),
        )
    }
}

impl Vars {
    #[verifier::type_invariant]
    closed spec fn inv(self) -> bool {
        &&& self.index <= self.entries@.len()
        &&& forall|i: int| 0 <= i < self.entries@.len() ==> is_var_entry(#[trigger] self.entries@[i]@)
    }

    /// Walks the given `NAME=VALUE` entries from the first.
    pub fn new(entries: Vec<String>) -> (r: Vars)
        requires
            forall|i: int| 0 <= i < entries@.len() ==> is_var_entry(#[trigger] entries@[i]@),
        ensures
            r@ == entries@.map_values(|s: String| var_parts(s@)),
    {
        let r = Vars { entries, index: 0 };
        assert(r@ =~= entries@.map_values(|s: String| var_parts(s@)));
        r
    }

    /// The next (name, value) pair, or `None` after the last.
    pub fn next(&mut self) -> (r: Option<(String, String)>)
        ensures
            old(self)@.len() == 0 ==> r is None && final(self)@ == old(self)@,
            old(self)@.len() > 0 ==> r is Some && (r->Some_0.0@, r->Some_0.1@) == old(self)@[0]
                && final(self)@ == old(self)@.drop_first(),
    {
        proof {
            use_type_invariant(&*self);
        }
        if self.index < self.entries.len() {
            let parts = split_var(self.entries[self.index].as_str());
            self.index = self.index + 1;
            proof {
                assert(final(self)@ =~= old(self)@.drop_first());
            }
            Some(parts)
        } else {
            None
        }
    }
}

} // verus!
