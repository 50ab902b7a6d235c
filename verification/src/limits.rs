//! The bounds within which text is handed to the JSON parser.
//!
//! `rustc_serialize`'s parser fails to return on some text:
//! - it recurses once per level of array or object nesting, so deep enough
//!   nesting overflows the stack. Nesting up to `MAX_DEPTH` levels is handed
//!   to it: on a 2 MiB thread stack, the smallest that std gives a thread by
//!   default, its unoptimised build parses twice that depth and overflows at
//!   four times it;
//! - it keeps the keys of the objects it is inside of in one buffer and
//!   records each key's start and length as `u16`, so when those keys
//!   together pass 65535 bytes, its key slicing overflows or panics. The keys
//!   open at any point are kept to `MAX_OPEN_KEY_BYTES` bytes of source text
//!   (a key's source is never shorter than the key it stands for);
//! - it reads an exponent's value into a `usize` with unchecked arithmetic,
//!   which panics once the value passes `usize::MAX`; exponents are kept to
//!   that value;
//! - it counts array positions in a `u32`; the text is kept to
//!   `MAX_TEXT_CHARS` characters, so no array holds more positions.
//!
//! The scan follows JSON's lexical structure: brackets, keys and exponents
//! inside string literals (delimited by unescaped `"`) do not count.

use vstd::prelude::*;

verus! {

broadcast use vstd::string::group_string_axioms;

/// The deepest nesting of arrays and objects handed to the parser.
pub const MAX_DEPTH: usize = 1024;

/// The most bytes of object keys that may be open at once.
pub const MAX_OPEN_KEY_BYTES: usize = 65535;

/// The longest text, in characters, handed to the parser.
pub const MAX_TEXT_CHARS: usize = 4294967295;

/// What the scan knows after a prefix of the text.
pub struct ScanModel {
    /// No bound has been passed so far.
    pub ok: bool,
    /// The prefix ends inside a string literal.
    pub in_string: bool,
    /// Inside a string literal, the previous character was an unescaped `\`.
    pub escaped: bool,
    /// For each array or object opened and not yet closed, the source bytes
    /// of the key its current member stands under (0 for none).
    pub levels: Seq<nat>,
    /// The sum of `levels`.
    pub open_key_bytes: nat,
    /// Source bytes of the current or last string literal (capped just above
    /// `MAX_OPEN_KEY_BYTES`).
    pub string_bytes: nat,
    /// Outside strings, the last character other than white space closed a
    /// string literal.
    pub after_string: bool,
    /// Outside strings: 0 after most characters, 1 after `e` or `E`, 2 after
    /// a sign that follows one, 3 inside the digits that follow.
    pub exp_marker: nat,
    /// The value of the exponent digits read so far.
    pub exp_value: nat,
    /// Characters read.
    pub length: nat,
}

/// The state before any character.
pub open spec fn scan_start() -> ScanModel {
    ScanModel {
        ok: true,
        in_string: false,
        escaped: false,
        levels: Seq::empty(),
        open_key_bytes: 0,
        string_bytes: 0,
        after_string: false,
        exp_marker: 0,
        exp_value: 0,
        length: 0,
    }
}

/// The number of bytes `c` takes in UTF-8.
pub open spec fn utf8_len(c: char) -> nat {
    if (c as u32) < 0x80 {
        1
    } else if (c as u32) < 0x800 {
        2
    } else if (c as u32) < 0x10000 {
        3
    } else {
        4
    }
}

/// `n`, capped just above `MAX_OPEN_KEY_BYTES`.
pub open spec fn capped(n: nat) -> nat {
    if n > MAX_OPEN_KEY_BYTES + 1 {
        (MAX_OPEN_KEY_BYTES + 1) as nat
    } else {
        n
    }
}

/// `c` is white space to the parser.
pub open spec fn is_json_space(c: char) -> bool {
    c == ' ' || c == '\t' || c == '\n' || c == '\r'
}

/// `c` is an ASCII digit.
pub open spec fn is_digit(c: char) -> bool {
    '0' as u32 <= c as u32 && c as u32 <= '9' as u32
}

/// The state outside strings after a character that ends any exponent.
pub open spec fn plain(s: ScanModel) -> ScanModel {
    ScanModel { exp_marker: 0, exp_value: 0, after_string: false, ..s }
}

/// The scan's state after one more character.
pub open spec fn scan_step(s0: ScanModel, c: char) -> ScanModel {
    if !s0.ok {
        s0
    } else if s0.length + 1 > MAX_TEXT_CHARS {
        ScanModel { ok: false, ..s0 }
    } else {
        let s = ScanModel { length: s0.length + 1, ..s0 };
        if s.in_string {
            if s.escaped {
                ScanModel { escaped: false, string_bytes: capped(s.string_bytes + utf8_len(c)), ..s }
            } else if c == '\\' {
                ScanModel { escaped: true, string_bytes: capped(s.string_bytes + 1), ..s }
            } else if c == '"' {
                ScanModel { in_string: false, after_string: true, ..s }
            } else {
                ScanModel { string_bytes: capped(s.string_bytes + utf8_len(c)), ..s }
            }
        } else if c == '"' {
            ScanModel { in_string: true, string_bytes: 0, ..plain(s) }
        } else if is_json_space(c) {
            ScanModel { exp_marker: 0, exp_value: 0, ..s }
        } else if c == ':' {
            if s.after_string && s.levels.len() > 0 {
                let total = s.open_key_bytes - s.levels.last() + s.string_bytes;
                if total > MAX_OPEN_KEY_BYTES {
                    ScanModel { ok: false, ..s0 }
                } else {
                    ScanModel {
                        levels: s.levels.update(s.levels.len() - 1, s.string_bytes),
                        open_key_bytes: total as nat,
                        ..plain(s)
                    }
                }
            } else {
                plain(s)
            }
        } else if c == ',' {
            if s.levels.len() > 0 {
                ScanModel {
                    levels: s.levels.update(s.levels.len() - 1, 0),
                    open_key_bytes: (s.open_key_bytes - s.levels.last()) as nat,
                    ..plain(s)
                }
            } else {
                plain(s)
            }
        } else if c == '[' || c == '{' {
            if s.levels.len() + 1 > MAX_DEPTH {
                ScanModel { ok: false, ..s0 }
            } else {
                ScanModel { levels: s.levels.push(0), ..plain(s) }
            }
        } else if c == ']' || c == '}' {
            if s.levels.len() > 0 {
                ScanModel {
                    levels: s.levels.drop_last(),
                    open_key_bytes: (s.open_key_bytes - s.levels.last()) as nat,
                    ..plain(s)
                }
            } else {
                plain(s)
            }
        } else if c == 'e' || c == 'E' {
            ScanModel { exp_marker: 1, ..plain(s) }
        } else if (c == '+' || c == '-') && s.exp_marker == 1 {
            ScanModel { exp_marker: 2, ..plain(s) }
        } else if is_digit(c) && s.exp_marker >= 1 {
            let v = s.exp_value * 10 + (c as u32 - '0' as u32);
            if v > usize::MAX {
                ScanModel { ok: false, ..s0 }
            } else {
                ScanModel { exp_marker: 3, exp_value: v as nat, ..plain(s) }
            }
        } else {
            plain(s)
        }
    }
}

/// The scan's state after the whole of `text`.
pub open spec fn scan(text: Seq<char>) -> ScanModel
    decreases text.len(),
{
    if text.len() == 0 {
        scan_start()
    } else {
        scan_step(scan(text.drop_last()), text.last())
    }
}

/// `text` stays within the parser's bounds.
pub open spec fn json_within_limits(text: Seq<char>) -> bool {
    scan(text).ok
}

/// Each exponent is bounded on its own: outside a string literal, any
/// character other than a digit ends the exponent being read, so the next
/// one starts again from zero.
pub proof fn lemma_exponent_ends_at_non_digit(s: ScanModel, c: char)
    requires
        s.ok,
        !s.in_string,
        !('0' as u32 <= c as u32 && c as u32 <= '9' as u32),
        scan_step(s, c).ok,
    ensures
        scan_step(s, c).exp_value == 0,
{
}

/// After a text that ends outside a string literal, a character other than a
/// digit leaves no exponent value behind, whatever came before.
pub proof fn lemma_text_exponent_ends_at_non_digit(t: Seq<char>, c: char)
    requires
        json_within_limits(t.push(c)),
        !scan(t).in_string,
        !('0' as u32 <= c as u32 && c as u32 <= '9' as u32),
    ensures
        scan(t.push(c)).exp_value == 0,
{
    assert(t.push(c).drop_last() =~= t);
    assert(scan(t).ok) by {
        if !scan(t).ok {
            assert(scan(t.push(c)) == scan(t));
        }
    }
    lemma_exponent_ends_at_non_digit(scan(t), c);
}

/// A digit read while an exponent is open extends that exponent's value in
/// base ten; any other use of digits leaves the exponent value unchanged.
pub proof fn lemma_exponent_digit(s: ScanModel, c: char)
    requires
        s.ok,
        !s.in_string,
        s.exp_marker >= 1,
        '0' as u32 <= c as u32 && c as u32 <= '9' as u32,
        scan_step(s, c).ok,
    ensures
        scan_step(s, c).exp_value == s.exp_value * 10 + (c as u32 - '0' as u32),
{
}

/// What the scan refuses stays refused: a text with a prefix beyond the
/// bounds is beyond them too.
pub proof fn lemma_within_limits_prefix(t: Seq<char>, u: Seq<char>)
    requires
        json_within_limits(t + u),
    ensures
        json_within_limits(t),
    decreases u.len(),
{
    if u.len() > 0 {
        assert((t + u).drop_last() =~= t + u.drop_last());
        if !json_within_limits(t + u.drop_last()) {
            assert(scan(t + u) == scan(t + u.drop_last()));
        }
        lemma_within_limits_prefix(t, u.drop_last());
    } else {
        assert(t + u =~= t);
    }
}

/// The sum of a sequence of counts.
pub open spec fn total(s: Seq<nat>) -> nat
    decreases s.len(),
{
    if s.len() == 0 {
        0
    } else {
        total(s.drop_last()) + s.last()
    }
}

/// The running state of the scan.
pub struct ScanState {
    ok: bool,
    in_string: bool,
    escaped: bool,
    levels: Vec<usize>,
    open_key_bytes: usize,
    string_bytes: usize,
    after_string: bool,
    exp_marker: u8,
    exp_value: usize,
    length: usize,
}

impl View for ScanState {
    type V = ScanModel;

    closed spec fn view(&self) -> ScanModel {
        ScanModel {
            ok: self.ok,
            in_string: self.in_string,
            escaped: self.escaped,
            levels: self.levels@.map_values(|n: usize| n as nat),
            open_key_bytes: self.open_key_bytes as nat,
            string_bytes: self.string_bytes as nat,
            after_string: self.after_string,
            exp_marker: self.exp_marker as nat,
            exp_value: self.exp_value as nat,
            length: self.length as nat,
        }
    }
}

impl ScanState {
    /// The counters agree with one another and stay within their bounds.
    pub closed spec fn wf(&self) -> bool {
        &&& self@.open_key_bytes == total(self@.levels)
        &&& self.open_key_bytes <= MAX_OPEN_KEY_BYTES
        &&& self.levels@.len() <= MAX_DEPTH
        &&& self.string_bytes <= MAX_OPEN_KEY_BYTES + 1
        &&& self.exp_marker <= 3
        &&& self.length <= MAX_TEXT_CHARS
    }

    /// The state before any character.
    pub fn new() -> (s: ScanState)
        ensures
            s@ == scan_start(),
            s.wf(),
    {
        let s = ScanState {
            ok: true,
            in_string: false,
            escaped: false,
            levels: Vec::new(),
            open_key_bytes: 0,
            string_bytes: 0,
            after_string: false,
            exp_marker: 0,
            exp_value: 0,
            length: 0,
        };
        assert(s@.levels =~= Seq::<nat>::empty());
        s
    }

    /// Whether no bound has been passed.
    pub fn is_ok(&self) -> (r: bool)
        ensures
            r == self@.ok,
    {
        self.ok
    }

    fn end_exponent(&mut self)
        ensures
            *final(self) == (ScanState { exp_marker: 0, exp_value: 0, after_string: false, ..*old(self) }),
    {
        self.exp_marker = 0;
        self.exp_value = 0;
        self.after_string = false;
    }

    /// Reads one more character.
    pub fn advance(&mut self, c: char)
        requires
            old(self).wf(),
        ensures
            final(self)@ == scan_step(old(self)@, c),
            final(self).wf(),
    {
        let ghost s0 = self@;
        if !self.ok {
            return;
        }
        if self.length == MAX_TEXT_CHARS {
            self.ok = false;
            return;
        }
        let width: usize = if (c as u32) < 0x80 {
            1
        } else if (c as u32) < 0x800 {
            2
        } else if (c as u32) < 0x10000 {
            3
        } else {
            4
        };
        self.length = self.length + 1;
        let ghost s = self@;
        if self.in_string {
            if self.escaped {
                self.escaped = false;
                self.string_bytes = add_capped(self.string_bytes, width);
            } else if c == '\\' {
                self.escaped = true;
                self.string_bytes = add_capped(self.string_bytes, 1);
            } else if c == '"' {
                self.in_string = false;
                self.after_string = true;
            } else {
                self.string_bytes = add_capped(self.string_bytes, width);
            }
        } else if c == '"' {
            self.end_exponent();
            self.in_string = true;
            self.string_bytes = 0;
        } else if c == ' ' || c == '\t' || c == '\n' || c == '\r' {
            self.exp_marker = 0;
            self.exp_value = 0;
        } else if c == ':' {
            let n = self.levels.len();
            if self.after_string && n > 0 {
                let last = self.levels[n - 1];
                proof {
                    lemma_total_bounds(self@.levels);
                    assert(self@.levels.last() == last as nat);
                }
                let rest = self.open_key_bytes - last;
                if self.string_bytes > MAX_OPEN_KEY_BYTES - rest {
                    self.length = self.length - 1;
                    self.ok = false;
                } else {
                    let key = self.string_bytes;
                    self.levels.set(n - 1, key);
                    self.open_key_bytes = rest + key;
                    self.end_exponent();
                    proof {
                        lemma_total_update_last(s.levels, key as nat);
                        assert(self@.levels =~= s.levels.update(s.levels.len() - 1, key as nat));
                    }
                }
            } else {
                self.end_exponent();
            }
        } else if c == ',' {
            let n = self.levels.len();
            if n > 0 {
                let last = self.levels[n - 1];
                proof {
                    lemma_total_bounds(self@.levels);
                    assert(self@.levels.last() == last as nat);
                }
                self.levels.set(n - 1, 0);
                self.open_key_bytes = self.open_key_bytes - last;
                proof {
                    lemma_total_update_last(s.levels, 0);
                    assert(self@.levels =~= s.levels.update(s.levels.len() - 1, 0));
                }
            }
            self.end_exponent();
        } else if c == '[' || c == '{' {
            if self.levels.len() == MAX_DEPTH {
                self.length = self.length - 1;
                self.ok = false;
            } else {
                self.levels.push(0);
                self.end_exponent();
                proof {
                    assert(self@.levels =~= s.levels.push(0));
                    assert(self@.levels.drop_last() =~= s.levels);
                }
            }
        } else if c == ']' || c == '}' {
            let n = self.levels.len();
            if n > 0 {
                let last = self.levels[n - 1];
                proof {
                    lemma_total_bounds(self@.levels);
                    assert(self@.levels.last() == last as nat);
                }
                self.levels.pop();
                self.open_key_bytes = self.open_key_bytes - last;
                proof {
                    assert(self@.levels =~= s.levels.drop_last());
                }
            }
            self.end_exponent();
        } else if c == 'e' || c == 'E' {
            self.end_exponent();
            self.exp_marker = 1;
        } else if (c == '+' || c == '-') && self.exp_marker == 1 {
            self.end_exponent();
            self.exp_marker = 2;
        } else if ('0' as u32) <= (c as u32) && (c as u32) <= ('9' as u32) && self.exp_marker >= 1 {
            let d = (c as u32 - '0' as u32) as usize;
            if self.exp_value > (usize::MAX - d) / 10 {
                proof {
                    assert(self.exp_value * 10 + d > usize::MAX) by (nonlinear_arith)
                        requires
                            self.exp_value > (usize::MAX - d) / 10,
                            d <= 9,
                    ;
                }
                self.length = self.length - 1;
                self.ok = false;
            } else {
                proof {
                    assert(self.exp_value * 10 + d <= usize::MAX) by (nonlinear_arith)
                        requires
                            self.exp_value <= (usize::MAX - d) / 10,
                            d <= 9,
                    ;
                }
                let v = self.exp_value * 10 + d;
                self.end_exponent();
                self.exp_marker = 3;
                self.exp_value = v;
            }
        } else {
            self.end_exponent();
        }
        proof {
            assert(self@ == scan_step(s0, c));
        }
    }
}

/// `n + w`, capped just above `MAX_OPEN_KEY_BYTES`.
fn add_capped(n: usize, w: usize) -> (r: usize)
    requires
        n <= MAX_OPEN_KEY_BYTES + 1,
        w <= 4,
    ensures
        r as nat == capped((n + w) as nat),
{
    if n + w > MAX_OPEN_KEY_BYTES + 1 {
        MAX_OPEN_KEY_BYTES + 1
    } else {
        n + w
    }
}

/// Each count is at most the total.
pub proof fn lemma_total_bounds(s: Seq<nat>)
    ensures
        s.len() > 0 ==> s.last() <= total(s),
{
}

/// Replacing the last count changes the total by the difference.
pub proof fn lemma_total_update_last(s: Seq<nat>, x: nat)
    requires
        s.len() > 0,
    ensures
        total(s.update(s.len() - 1, x)) == total(s) - s.last() + x,
{
    assert(s.update(s.len() - 1, x).drop_last() =~= s.drop_last());
}

/// Whether `text` stays within the parser's bounds.
pub fn within_parser_limits(text: &str) -> (r: bool)
    ensures
        r == json_within_limits(text@),
{
    let mut state = ScanState::new();
    for c in it: text.chars()
        invariant
            it.seq() == text@,
            state@ == scan(it.seq().take(it.index() as int)),
            state.wf(),
    {
        proof {
            let after = it.seq().take(it.index() + 1);
            assert(after.drop_last() =~= it.seq().take(it.index() as int));
            assert(after.last() == c);
        }
        state.advance(c);
    }
    proof {
        assert(text@.take(text@.len() as int) =~= text@);
    }
    state.is_ok()
}

} // verus!
