//! Magnet links: `magnet:?` followed by `key=value` parameters separated by
//! `&`.

use vstd::prelude::*;
use vstd::string::{StrSliceExecFns, StringExecFns};

verus! {

/// The parameters of a magnet link that this client reads.
#[derive(Default)]
pub struct Magnet {
    /// The exact topic: the content's identity.
    pub xt: String,
    /// The display name.
    pub dn: String,
    /// The tracker addresses, in the order written.
    pub tr: Vec<String>,
}

/// The mathematical content of a `Magnet`.
pub ghost struct MagnetView {
    pub xt: Seq<char>,
    pub dn: Seq<char>,
    pub tr: Seq<Seq<char>>,
}

impl View for Magnet {
    type V = MagnetView;

    open spec fn view(&self) -> MagnetView {
        MagnetView { xt: self.xt@, dn: self.dn@, tr: Seq::new(self.tr@.len(), |i: int| self.tr@[i]@) }
    }
}

/// The first index in `from .. end` at which `c` stands, or `end`.
pub open spec fn find_in(s: Seq<char>, c: char, from: int, end: int) -> int
    decreases end - from,
{
    if from < end {
        if s[from] == c {
            from
        } else {
            find_in(s, c, from + 1, end)
        }
    } else {
        end
    }
}

/// True when `pat` stands in `s` at index `k`.
pub open spec fn stands_at(s: Seq<char>, pat: Seq<char>, k: int) -> bool {
    0 <= k && k + pat.len() <= s.len() && s.subrange(k, k + pat.len()) == pat
}

/// The first index from `from` on at which `pat` stands, or the length of `s`.
pub open spec fn find_sub(s: Seq<char>, pat: Seq<char>, from: int) -> int
    decreases s.len() + 1 - from,
{
    if 0 <= from && from + pat.len() <= s.len() {
        if stands_at(s, pat, from) {
            from
        } else {
            find_sub(s, pat, from + 1)
        }
    } else {
        s.len() as int
    }
}

/// The parameters after one more `key=value` has been read.
pub open spec fn bind(m: MagnetView, key: Seq<char>, value: Seq<char>) -> MagnetView {
    if key == "xt"@ {
        MagnetView { xt: value, ..m }
    } else if key == "dn"@ {
        MagnetView { dn: value, ..m }
    } else if key == "tr"@ {
        MagnetView { tr: m.tr.push(value), ..m }
    } else {
        m
    }
}

/// What `find_in` finds lies in the range and is the first place at which
/// the character stands.
pub proof fn lemma_find_in_bounds(s: Seq<char>, c: char, from: int, end: int)
    requires
        from <= end,
    ensures
        from <= find_in(s, c, from, end) <= end,
        find_in(s, c, from, end) < end ==> s[find_in(s, c, from, end)] == c,
        forall|k: int| from <= k < find_in(s, c, from, end) ==> s[k] != c,
    decreases end - from,
{
    if from < end && s[from] != c {
        lemma_find_in_bounds(s, c, from + 1, end);
    }
}

/// Reads the parameters that stand in `from .. end`, starting from `m`. Each
/// parameter runs up to the next `&`; its key runs up to its first `=` and
/// its value from there up to its second `=`. A parameter without `=` makes
/// the link invalid.
pub open spec fn parse_params(s: Seq<char>, from: int, end: int, m: MagnetView) -> Option<
    MagnetView,
>
    decreases end - from,
    when from <= end
    via parse_params_terminates
{
    let amp = find_in(s, '&', from, end);
    let eq = find_in(s, '=', from, amp);
    if eq == amp {
        None
    } else {
        let eq2 = find_in(s, '=', eq + 1, amp);
        let next = bind(m, s.subrange(from, eq), s.subrange(eq + 1, eq2));
        if amp == end {
            Some(next)
        } else {
            parse_params(s, amp + 1, end, next)
        }
    }
}

#[via_fn]
proof fn parse_params_terminates(s: Seq<char>, from: int, end: int, m: MagnetView) {
    lemma_find_in_bounds(s, '&', from, end);
}

/// The empty set of parameters.
pub open spec fn no_params() -> MagnetView {
    MagnetView { xt: Seq::empty(), dn: Seq::empty(), tr: Seq::empty() }
}

/// What a link parses to, when it is valid: it starts with `magnet:?`, and
/// its parameters run from there up to the next `magnet:?` or the end.
pub open spec fn parse_magnet(s: Seq<char>) -> Option<MagnetView> {
    let scheme = "magnet:?"@;
    if s.len() >= 8 && s.subrange(0, 8) == scheme {
        parse_params(s, 8, find_sub(s, scheme, 8), no_params())
    } else {
        None
    }
}


proof fn lemma_find_sub(s: Seq<char>, pat: Seq<char>, from: int, at: int)
    requires
        0 <= from <= at,
        forall|k: int| from <= k < at ==> !#[trigger] stands_at(s, pat, k),
        at + pat.len() > s.len() || stands_at(s, pat, at),
    ensures
        find_sub(s, pat, from) == (if at + pat.len() <= s.len() {
            at
        } else {
            s.len() as int
        }),
    decreases at - from,
{
    if from < at && from + pat.len() <= s.len() {
        lemma_find_sub(s, pat, from + 1, at);
    }
}

/// The characters of a text.
pub fn chars_of(input: &str) -> (cs: Vec<char>)
    ensures
        cs@ == input@,
{
    let n = input.unicode_len();
    let mut cs: Vec<char> = Vec::new();
    let mut i: usize = 0;
    while i < n
        invariant
            i <= n,
            n == input@.len(),
            cs@ == input@.subrange(0, i as int),
        decreases n - i,
    {
        cs.push(input.get_char(i));
        i += 1;
        assert(cs@ =~= input@.subrange(0, i as int));
    }
    assert(input@.subrange(0, n as int) =~= input@);
    cs
}

/// The first index in `from .. end` at which `c` stands, or `end`.
pub fn find_char(cs: &Vec<char>, c: char, from: usize, end: usize) -> (at: usize)
    requires
        from <= end <= cs@.len(),
    ensures
        at == find_in(cs@, c, from as int, end as int),
        from <= at <= end,
{
    let mut at: usize = from;
    while at < end && cs[at] != c
        invariant
            from <= at <= end <= cs@.len(),
            find_in(cs@, c, from as int, end as int) == find_in(cs@, c, at as int, end as int),
        decreases end - at,
    {
        at += 1;
    }
    at
}

fn starts_at(cs: &Vec<char>, pat: &Vec<char>, at: usize) -> (yes: bool)
    requires
        at + pat@.len() <= cs@.len(),
    ensures
        yes == stands_at(cs@, pat@, at as int),
{
    let n: usize = cs.len();
    let mut k: usize = 0;
    while k < pat.len()
        invariant
            k <= pat@.len(),
            n == cs@.len(),
            at + pat@.len() <= cs@.len(),
            forall|j: int| 0 <= j < k ==> cs@[at + j] == pat@[j],
        decreases pat@.len() - k,
    {
        if cs[at + k] != pat[k] {
            assert(cs@.subrange(at as int, at + pat@.len())[k as int] != pat@[k as int]);
            return false;
        }
        k += 1;
    }
    assert(cs@.subrange(at as int, at + pat@.len()) =~= pat@);
    true
}

fn str_equal(cs: &Vec<char>, from: usize, to: usize, word: &str) -> (same: bool)
    requires
        from <= to <= cs@.len(),
    ensures
        same == (cs@.subrange(from as int, to as int) == word@),
{
    let n = word.unicode_len();
    if to - from != n {
        return false;
    }
    let mut k: usize = 0;
    while k < n
        invariant
            k <= n,
            n == word@.len(),
            to - from == n,
            to <= cs@.len(),
            forall|j: int| 0 <= j < k ==> cs@[from + j] == word@[j],
        decreases n - k,
    {
        if cs[from + k] != word.get_char(k) {
            assert(cs@.subrange(from as int, to as int)[k as int] != word@[k as int]);
            return false;
        }
        k += 1;
    }
    assert(cs@.subrange(from as int, to as int) =~= word@);
    true
}

impl Magnet {
    /// Parses a magnet link. A link that does not start with `magnet:?`, or
    /// that has a parameter without `=`, is refused.
    pub fn new(input: &str) -> (r: Result<Magnet, &'static str>)
        ensures
            match parse_magnet(input@) {
                Some(m) => r matches Ok(x) && x@ == m,
                None => r matches Err(msg) && msg@ == (if input@.len() >= 8 && input@.subrange(
                    0,
                    8,
                ) == "magnet:?"@ {
                    "Invalid Magnet Link!"@
                } else {
                    "Link should start with 'magnet:?'"@
                }),
            },
    {
        let cs = chars_of(input);
        let scheme = chars_of("magnet:?");
        proof {
            reveal_strlit("magnet:?");
        }
        if cs.len() < 8 || !starts_at(&cs, &scheme, 0) {
            return Err("Link should start with 'magnet:?'");
        }
        // the parameters end where the scheme stands again, or at the end
        let n: usize = cs.len();
        let mut end: usize = 8;
        while end <= n - 8 && !starts_at(&cs, &scheme, end)
            invariant
                8 <= end <= cs@.len(),
                n == cs@.len(),
                scheme@ == "magnet:?"@,
                scheme@.len() == 8,
                forall|k: int| 8 <= k < end ==> !#[trigger] stands_at(cs@, scheme@, k),
            decreases cs@.len() - end,
        {
            end += 1;
        }
        proof {
            lemma_find_sub(cs@, scheme@, 8, end as int);
        }
        if end > n - 8 {
            end = n;
        }
        let mut magnet = Magnet { xt: String::new(), dn: String::new(), tr: Vec::new() };
        assert(magnet@.tr =~= no_params().tr);
        let mut from: usize = 8;
        loop
            invariant
                8 <= from <= end <= cs@.len(),
                cs@ == input@,
                input@.subrange(0, 8) == "magnet:?"@,
                parse_magnet(input@) == parse_params(cs@, from as int, end as int, magnet@),
            decreases end - from,
        {
            let amp = find_char(&cs, '&', from, end);
            let eq = find_char(&cs, '=', from, amp);
            if eq == amp {
                return Err("Invalid Magnet Link!");
            }
            let eq2 = find_char(&cs, '=', eq + 1, amp);
            let value = String::from_str(input.substring_char(eq + 1, eq2));
            let ghost before = magnet@;
            if str_equal(&cs, from, eq, "xt") {
                magnet.xt = value;
            } else if str_equal(&cs, from, eq, "dn") {
                magnet.dn = value;
            } else if str_equal(&cs, from, eq, "tr") {
                magnet.tr.push(value);
                assert(magnet@.tr =~= before.tr.push(value@));
            }
            assert(magnet@.tr =~= bind(
                before,
                cs@.subrange(from as int, eq as int),
                cs@.subrange(eq + 1, eq2 as int),
            ).tr);
            assert(magnet@ == bind(
                before,
                cs@.subrange(from as int, eq as int),
                cs@.subrange(eq + 1, eq2 as int),
            ));
            if amp == end {
                return Ok(magnet);
            }
            from = amp + 1;
        }
    }
}

} // verus!
