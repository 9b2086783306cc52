//! A fixed-capacity circular byte store with a framing protocol for
//! checksummed, terminator-delimited messages.
use vstd::prelude::*;
use vstd::string::*;

pub mod checksum;
pub mod framing;
pub mod ring_buffer;

verus! {

/// Each character of `s` narrowed to a byte (its code point modulo 256).
pub open spec fn narrow_chars(s: Seq<char>) -> Seq<u8> {
    s.map_values(|c: char| c as u8)
}

/// Turns each message into its bytes, one byte per character.
pub fn create_log_messages(messages: &[&str]) -> (r: Vec<Vec<u8>>)
    ensures
        r@.len() == messages@.len(),
        forall|i: int| 0 <= i < r@.len() ==> #[trigger] r@[i]@ == narrow_chars(messages@[i]@),
{
    let mut out: Vec<Vec<u8>> = Vec::new();
    let mut i: usize = 0;
    while i < messages.len()
        invariant
            i <= messages@.len(),
            out@.len() == i,
            forall|k: int| 0 <= k < i ==> #[trigger] out@[k]@ == narrow_chars(messages@[k]@),
        decreases messages@.len() - i,
    {
        let m: &str = messages[i];
        let n = m.unicode_len();
        let mut bytes: Vec<u8> = Vec::new();
        let mut j: usize = 0;
        while j < n
            invariant
                n == m@.len(),
                j <= n,
                bytes@ == narrow_chars(m@.take(j as int)),
            decreases n - j,
        {
            let c = m.get_char(j);
            bytes.push(c as u8);
            assert(narrow_chars(m@.take(j as int + 1)) =~= narrow_chars(m@.take(j as int)).push(c as u8));
            j = j + 1;
        }
        assert(m@.take(j as int) =~= m@);
        out.push(bytes);
        i = i + 1;
    }
    out
}

} // verus!
