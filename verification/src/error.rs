//! Locating a token in the source for error messages.

use vstd::prelude::*;
use vstd::string::StringSliceAdditionalSpecFns;

use crate::ir::ir_lexer::Token;

verus! {

/// A byte that continues a character in UTF-8 rather than starting one.
pub open spec fn is_continuation(b: u8) -> bool {
    128 <= b < 192
}

/// The line and column (both from 1, the column counted in characters) after the first `k`
/// bytes of `s`.
pub open spec fn line_col(s: Seq<u8>, k: int) -> (nat, nat)
    decreases k,
{
    if k <= 0 {
        (1, 1)
    } else {
        let (l, c) = line_col(s, k - 1);
        let b = s[k - 1];
        if is_continuation(b) {
            (l, c)
        } else if b == 10 {
            (l + 1, 1)
        } else {
            (l, c + 1)
        }
    }
}

proof fn lemma_line_col_bound(s: Seq<u8>, k: int)
    requires
        0 <= k,
    ensures
        line_col(s, k).0 <= k + 1,
        line_col(s, k).1 <= k + 1,
    decreases k,
{
    if k > 0 {
        lemma_line_col_bound(s, k - 1);
    }
}

/// The line and column at which a token starts.
pub fn offset_to_line_col(tk: &Token, src: &str) -> (r: (usize, usize))
    requires
        src.spec_bytes().len() < usize::MAX,
    ensures
        r.0 as nat == line_col(src.spec_bytes(), if (tk.span.0 as int) < src.spec_bytes().len() {
            tk.span.0 as int
        } else {
            src.spec_bytes().len() as int
        }).0,
        r.1 as nat == line_col(src.spec_bytes(), if (tk.span.0 as int) < src.spec_bytes().len() {
            tk.span.0 as int
        } else {
            src.spec_bytes().len() as int
        }).1,
{
    let bytes = src.as_bytes();
    let end: usize = if (tk.span.0 as usize) < bytes.len() {
        tk.span.0 as usize
    } else {
        bytes.len()
    };
    let mut line: usize = 1;
    let mut col: usize = 1;
    let mut i: usize = 0;
    while i < end
        invariant
            end <= bytes@.len(),
            bytes@.len() < usize::MAX,
            bytes@ == src.spec_bytes(),
            i <= end,
            (line as nat, col as nat) == line_col(bytes@, i as int),
        decreases end - i,
    {
        proof {
            lemma_line_col_bound(bytes@, i as int);
        }
        let b = bytes[i];
        if b >= 128 && b < 192 {
        } else if b == 10 {
            line = line + 1;
            col = 1;
        } else {
            col = col + 1;
        }
        i = i + 1;
    }
    (line, col)
}

} // verus!
