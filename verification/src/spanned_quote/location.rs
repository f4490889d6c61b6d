//! Call sites, and how they are written in a diagnostic.

use vstd::prelude::*;
use vstd::string::StringExecFns;
use vstd::string::StringSliceAdditionalSpecFns;
use vstd::utf8::encode_utf8_decode_utf8;

verus! {

/// Where a template was expanded.
#[derive(Clone, Copy, Debug, Eq, PartialEq, Ord, PartialOrd, Hash)]
pub struct Location {
    pub file_name: &'static str,
    pub line: u32,
    pub col: u32,
}

/// The value of a [`Location`]: the file name as characters, line and column.
pub struct LocationView {
    pub file_name: Seq<char>,
    pub line: u32,
    pub col: u32,
}

impl View for Location {
    type V = LocationView;

    open spec fn view(&self) -> LocationView {
        LocationView { file_name: self.file_name@, line: self.line, col: self.col }
    }
}

/// The text of one decimal digit.
pub open spec fn digit_text(d: nat) -> Seq<char> {
    if d == 0 {
        "0"@
    } else if d == 1 {
        "1"@
    } else if d == 2 {
        "2"@
    } else if d == 3 {
        "3"@
    } else if d == 4 {
        "4"@
    } else if d == 5 {
        "5"@
    } else if d == 6 {
        "6"@
    } else if d == 7 {
        "7"@
    } else if d == 8 {
        "8"@
    } else {
        "9"@
    }
}

/// A number written in decimal, without sign or leading zeros.
pub open spec fn decimal_text(n: nat) -> Seq<char>
    decreases n,
{
    if n < 10 {
        digit_text(n)
    } else {
        decimal_text(n / 10) + digit_text(n % 10)
    }
}

/// A call site written as `file:line:col`.
pub open spec fn location_text(loc: LocationView) -> Seq<char> {
    loc.file_name + ":"@ + decimal_text(loc.line as nat) + ":"@ + decimal_text(loc.col as nat)
}

fn digit_str(d: u32) -> (s: &'static str)
    requires
        d < 10,
    ensures
        s@ == digit_text(d as nat),
{
    if d == 0 {
        "0"
    } else if d == 1 {
        "1"
    } else if d == 2 {
        "2"
    } else if d == 3 {
        "3"
    } else if d == 4 {
        "4"
    } else if d == 5 {
        "5"
    } else if d == 6 {
        "6"
    } else if d == 7 {
        "7"
    } else if d == 8 {
        "8"
    } else {
        "9"
    }
}

/// Appends `n` in decimal to `out`.
pub fn append_decimal(out: &mut String, n: u32)
    ensures
        final(out)@ == old(out)@ + decimal_text(n as nat),
    decreases n,
{
    if n < 10 {
        out.append(digit_str(n));
    } else {
        append_decimal(out, n / 10);
        out.append(digit_str(n % 10));
        assert(old(out)@ + decimal_text((n / 10) as nat) + digit_text((n % 10) as nat) =~= old(out)@
            + decimal_text(n as nat));
    }
}

/// Whether two texts hold the same characters.
pub fn same_text(a: &str, b: &str) -> (same: bool)
    ensures
        same == (a@ == b@),
{
    let x = a.as_bytes();
    let y = b.as_bytes();
    proof {
        encode_utf8_decode_utf8(a@);
        encode_utf8_decode_utf8(b@);
    }
    if x.len() != y.len() {
        return false;
    }
    let mut i: usize = 0;
    while i < x.len()
        invariant
            i <= x.len(),
            x.len() == y.len(),
            x@ == a.spec_bytes(),
            y@ == b.spec_bytes(),
            forall|j: int| 0 <= j < i ==> x@[j] == y@[j],
        decreases x.len() - i,
    {
        if x[i] != y[i] {
            return false;
        }
        i = i + 1;
    }
    assert(x@ =~= y@);
    true
}

impl Location {
    /// Whether two call sites are the same in file, line and column.
    pub fn same(&self, other: &Location) -> (same: bool)
        ensures
            same == (self@ == other@),
    {
        self.line == other.line && self.col == other.col && same_text(
            self.file_name,
            other.file_name,
        )
    }

    /// Appends the call site, written as `file:line:col`, to `out`.
    pub fn append_to(&self, out: &mut String)
        ensures
            final(out)@ == old(out)@ + location_text(self@),
    {
        out.append(self.file_name);
        out.append(":");
        append_decimal(out, self.line);
        out.append(":");
        append_decimal(out, self.col);
        assert(old(out)@ + self.file_name@ + ":"@ + decimal_text(self.line as nat) + ":"@
            + decimal_text(self.col as nat) =~= old(out)@ + location_text(self@));
    }

    /// The call site written as `file:line:col`.
    pub fn text(&self) -> (text: String)
        ensures
            text@ == location_text(self@),
    {
        let mut text = String::new();
        self.append_to(&mut text);
        assert(Seq::<char>::empty() + location_text(self@) =~= location_text(self@));
        text
    }
}

/// `sources` with `loc` recorded: unchanged if it is there already, else with
/// `loc` at the end.
pub open spec fn recorded(sources: Seq<LocationView>, loc: LocationView) -> Seq<LocationView> {
    if sources.contains(loc) {
        sources
    } else {
        sources.push(loc)
    }
}

/// The set of a sequence with one more element is the set with that element
/// put in.
pub proof fn lemma_to_set_push<A>(s: Seq<A>, a: A)
    ensures
        s.push(a).to_set() == s.to_set().insert(a),
{
    assert forall|x: A| s.push(a).to_set().contains(x) <==> s.to_set().insert(a).contains(x) by {
        if s.push(a).contains(x) {
            let k = choose|k: int| 0 <= k < s.push(a).len() && s.push(a)[k] == x;
            if k < s.len() {
                assert(s[k] == x);
            }
        }
        if s.contains(x) {
            let k = choose|k: int| 0 <= k < s.len() && s[k] == x;
            assert(s.push(a)[k] == x);
        }
        if x == a {
            assert(s.push(a)[s.len() as int] == x);
        }
    }
    assert(s.push(a).to_set() =~= s.to_set().insert(a));
}

} // verus!
