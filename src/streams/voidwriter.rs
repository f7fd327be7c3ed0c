use vstd::prelude::*;
use vstd::string::StringExecFns;

verus! {

/// Writes everything successfully to the endless void of nothingness ...
/// and counts written bytes and calls to `write`.
pub struct VoidWriter {
    wrote: usize,
    calls: usize,
}

impl VoidWriter {
    /// Bytes accepted so far.
    pub closed spec fn spec_wrote(&self) -> nat {
        self.wrote as nat
    }

    /// Calls to `write` so far.
    pub closed spec fn spec_calls(&self) -> nat {
        self.calls as nat
    }

    /// Create a new instance of [`VoidWriter`], with both counters at zero.
    pub fn new() -> (w: Self)
        ensures
            w.spec_wrote() == 0,
            w.spec_calls() == 0,
    {
        VoidWriter { wrote: 0, calls: 0 }
    }

    /// Returns the amount of written bytes.
    pub fn wrote(&self) -> (r: usize)
        ensures
            r == self.spec_wrote(),
    {
        self.wrote
    }

    /// Returns the amount of calls to `write`.
    pub fn calls(&self) -> (r: usize)
        ensures
            r == self.spec_calls(),
    {
        self.calls
    }

    /// Accepts `buf` and discards it: the byte counter grows by its length and
    /// the call counter by one. Returns the length of `buf`.
    pub fn write(&mut self, buf: &[u8]) -> (n: usize)
        requires
            old(self).spec_wrote() + buf@.len() <= usize::MAX,
            old(self).spec_calls() + 1 <= usize::MAX,
        ensures
            n == buf@.len(),
            final(self).spec_wrote() == old(self).spec_wrote() + buf@.len(),
            final(self).spec_calls() == old(self).spec_calls() + 1,
    {
        self.wrote = self.wrote + buf.len();
        self.calls = self.calls + 1;
        buf.len()
    }

    /// Nothing is buffered, so there is nothing to flush.
    pub fn flush(&mut self)
        ensures
            *final(self) == *old(self),
    {
    }

    /// A human-readable summary, `Wrote <bytes> bytes in <calls> calls`.
    pub fn to_string(&self) -> (s: String)
        ensures
            s@ == summary_text(self.spec_wrote(), self.spec_calls()),
    {
        let mut s = String::from_str("Wrote ");
        s.append(decimal_string(self.wrote).as_str());
        s.append(" bytes in ");
        s.append(decimal_string(self.calls).as_str());
        s.append(" calls");
        s
    }
}

impl Default for VoidWriter {
    fn default() -> (w: Self)
        ensures
            w.spec_wrote() == 0,
            w.spec_calls() == 0,
    {
        VoidWriter::new()
    }
}

/// The decimal digit for `d`, which is below ten.
pub open spec fn digit_char(d: nat) -> char {
    seq!['0', '1', '2', '3', '4', '5', '6', '7', '8', '9'][d as int]
}

/// `n` written in decimal, without leading zeros.
pub open spec fn decimal(n: nat) -> Seq<char>
    decreases n,
{
    if n < 10 {
        seq![digit_char(n)]
    } else {
        decimal(n / 10).push(digit_char(n % 10))
    }
}

/// The summary of a writer that accepted `wrote` bytes in `calls` calls.
pub open spec fn summary_text(wrote: nat, calls: nat) -> Seq<char> {
    "Wrote "@ + decimal(wrote) + " bytes in "@ + decimal(calls) + " calls"@
}

/// Relies on `ToString` for `usize`, which writes the integer's `Display`
/// form: its decimal digits, without sign, padding or leading zeros.
#[verifier::external_body]
fn decimal_string(n: usize) -> (s: String)
    ensures
        s@ == decimal(n as nat),
{
    n.to_string()
}

} // verus!
