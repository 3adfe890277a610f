//! The logfmt key/value serializer: quoting decision, key sanitizing and
//! value escaping, and separator insertion into an append-only output.

use vstd::prelude::*;

verus! {

/// The errors a serializing step can surface.
#[derive(Debug, PartialEq)]
pub enum SerializerError {
    /// A key was empty after every quoting-triggering character was stripped.
    InvalidKey,
    /// An upstream rendering step failed; the current line is abandoned.
    Format,
}

/// A character forces quoting when it is a control character or space
/// (ordinal at most 0x20), the pair separator `=`, or the quote `"`.
pub open spec fn need_quote_spec(c: char) -> bool {
    (c as u32) <= 32 || c == '=' || c == '"'
}

/// A key is emitted with every quoting-triggering character stripped.
pub open spec fn clean_key(k: Seq<char>) -> Seq<char> {
    k.filter(|c: char| !need_quote_spec(c))
}

/// A value is quoted when any of its characters forces quoting.
pub open spec fn needs_quoting(v: Seq<char>) -> bool {
    exists|i: int| 0 <= i < v.len() && need_quote_spec(v[i])
}

/// The hexadecimal digit for `d`, in lower case.
pub open spec fn hex_digit(d: nat) -> char
    recommends
        d < 16,
{
    if d < 10 {
        ((d + 48) as u8) as char
    } else {
        ((d + 87) as u8) as char
    }
}

/// The hexadecimal rendering of `n`, in lower case, without leading zeros.
pub open spec fn hex_seq(n: nat) -> Seq<char>
    decreases n,
{
    if n < 16 {
        seq![hex_digit(n)]
    } else {
        hex_seq(n / 16).push(hex_digit(n % 16))
    }
}

/// The escape of one character inside a quoted value: backslash escapes
/// for the quote, the backslash and the common control characters, a
/// `\u{..}` hex escape for the other non-printable ones, and every
/// printable character unchanged.
pub open spec fn escape_char(c: char) -> Seq<char> {
    if c == '"' {
        seq!['\\', '"']
    } else if c == '\\' {
        seq!['\\', '\\']
    } else if c == '\n' {
        seq!['\\', 'n']
    } else if c == '\r' {
        seq!['\\', 'r']
    } else if c == '\t' {
        seq!['\\', 't']
    } else if c == '\0' {
        seq!['\\', '0']
    } else if (c as u32) <= 0x1f || (c as u32) == 0x7f {
        seq!['\\', 'u', '{'] + hex_seq(c as nat) + seq!['}']
    } else {
        seq![c]
    }
}

/// The escape of a whole value, character by character.
pub open spec fn escape_seq(v: Seq<char>) -> Seq<char>
    decreases v.len(),
{
    if v.len() == 0 {
        Seq::<char>::empty()
    } else {
        escape_char(v[0]) + escape_seq(v.skip(1))
    }
}

/// The rendering of a value: verbatim when no character forces quoting,
/// otherwise quoted with its interior escaped.
pub open spec fn encode_value(v: Seq<char>) -> Seq<char> {
    if needs_quoting(v) {
        seq!['"'] + escape_seq(v) + seq!['"']
    } else {
        v
    }
}

/// The separator written before a token: one space, except before the
/// first token of the output.
pub open spec fn sep_for(out: Seq<char>) -> Seq<char> {
    if out.len() == 0 {
        Seq::<char>::empty()
    } else {
        seq![' ']
    }
}

/// One `key=value` token, with the key sanitized and the value encoded.
pub open spec fn entry_token(k: Seq<char>, v: Seq<char>) -> Seq<char> {
    clean_key(k) + seq!['='] + encode_value(v)
}

/// The decimal digit character for `d`.
pub open spec fn dec_digit(d: nat) -> char
    recommends
        d < 10,
{
    ((d + 48) as u8) as char
}

/// The decimal rendering of `n`, without leading zeros.
pub open spec fn dec_seq(n: nat) -> Seq<char>
    decreases n,
{
    if n < 10 {
        seq![dec_digit(n)]
    } else {
        dec_seq(n / 10).push(dec_digit(n % 10))
    }
}

/// The decimal rendering of a signed number: a minus sign before the
/// rendering of the magnitude when it is negative.
pub open spec fn dec_signed(n: int) -> Seq<char> {
    if n < 0 {
        seq!['-'] + dec_seq((-n) as nat)
    } else {
        dec_seq(n as nat)
    }
}

/// The rendering of a boolean.
pub open spec fn bool_seq(b: bool) -> Seq<char> {
    if b {
        seq!['t', 'r', 'u', 'e']
    } else {
        seq!['f', 'a', 'l', 's', 'e']
    }
}

/// No character of a decimal rendering forces quoting.
pub proof fn lemma_dec_seq_no_quote(n: nat)
    ensures
        !needs_quoting(dec_seq(n)),
    decreases n,
{
    if n >= 10 {
        lemma_dec_seq_no_quote(n / 10);
    }
}

/// No character of a signed decimal rendering forces quoting.
pub proof fn lemma_dec_signed_no_quote(n: int)
    ensures
        !needs_quoting(dec_signed(n)),
{
    if n < 0 {
        lemma_dec_seq_no_quote((-n) as nat);
        assert forall|i: int| 0 <= i < dec_signed(n).len() implies !need_quote_spec(
            dec_signed(n)[i],
        ) by {
            if i > 0 {
                assert(dec_signed(n)[i] == dec_seq((-n) as nat)[i - 1]);
                assert(!need_quote_spec(dec_seq((-n) as nat)[i - 1]));
            }
        }
    } else {
        lemma_dec_seq_no_quote(n as nat);
    }
}

/// No character of a boolean rendering forces quoting.
pub proof fn lemma_bool_seq_no_quote(b: bool)
    ensures
        !needs_quoting(bool_seq(b)),
{
}

/// Whether `c` is a lower-case hexadecimal digit character.
pub open spec fn is_hex_digit(c: char) -> bool {
    (48 <= (c as u32) && (c as u32) <= 57) || (97 <= (c as u32) && (c as u32) <= 102)
}

/// The value of a lower-case hexadecimal digit character.
pub open spec fn hex_val(c: char) -> nat
    recommends
        is_hex_digit(c),
{
    if (c as u32) <= 57 {
        ((c as u32) - 48) as nat
    } else {
        ((c as u32) - 87) as nat
    }
}

/// The inverse of the escape rules: rebuilds the original text from the
/// interior of a quoted value, or nothing when the text does not follow
/// them. A `\u{..}` escape carries one or two hexadecimal digits, as the
/// escape of a non-printable character does.
pub open spec fn unescape_seq(s: Seq<char>) -> Option<Seq<char>>
    decreases s.len(),
{
    if s.len() == 0 {
        Some(Seq::<char>::empty())
    } else if s[0] != '\\' {
        match unescape_seq(s.skip(1)) {
            Some(r) => Some(seq![s[0]] + r),
            None => None,
        }
    } else if s.len() >= 2 && (s[1] == '"' || s[1] == '\\') {
        match unescape_seq(s.skip(2)) {
            Some(r) => Some(seq![s[1]] + r),
            None => None,
        }
    } else if s.len() >= 2 && s[1] == 'n' {
        match unescape_seq(s.skip(2)) {
            Some(r) => Some(seq!['\n'] + r),
            None => None,
        }
    } else if s.len() >= 2 && s[1] == 'r' {
        match unescape_seq(s.skip(2)) {
            Some(r) => Some(seq!['\r'] + r),
            None => None,
        }
    } else if s.len() >= 2 && s[1] == 't' {
        match unescape_seq(s.skip(2)) {
            Some(r) => Some(seq!['\t'] + r),
            None => None,
        }
    } else if s.len() >= 2 && s[1] == '0' {
        match unescape_seq(s.skip(2)) {
            Some(r) => Some(seq!['\0'] + r),
            None => None,
        }
    } else if s.len() >= 5 && s[1] == 'u' && s[2] == '{' && is_hex_digit(s[3]) && s[4] == '}' {
        match unescape_seq(s.skip(5)) {
            Some(r) => Some(seq![(hex_val(s[3]) as u8) as char] + r),
            None => None,
        }
    } else if s.len() >= 6 && s[1] == 'u' && s[2] == '{' && is_hex_digit(s[3]) && is_hex_digit(
        s[4],
    ) && s[5] == '}' {
        match unescape_seq(s.skip(6)) {
            Some(r) => Some(seq![((16 * hex_val(s[3]) + hex_val(s[4])) as u8) as char] + r),
            None => None,
        }
    } else {
        None
    }
}

/// A hexadecimal digit character carries the value it was made from.
proof fn lemma_hex_digit_val(d: nat)
    requires
        d < 16,
    ensures
        is_hex_digit(hex_digit(d)),
        hex_val(hex_digit(d)) == d,
{
}

/// Un-escaping inverts escaping, one character at a time: the escape of
/// `c` followed by any tail is parsed back as `c` followed by whatever
/// the tail parses to.
proof fn lemma_unescape_char(c: char, tail: Seq<char>)
    ensures
        unescape_seq(escape_char(c) + tail) == match unescape_seq(tail) {
            Some(r) => Some(seq![c] + r),
            None => None::<Seq<char>>,
        },
{
    let s = escape_char(c) + tail;
    if c == '"' || c == '\\' || c == '\n' || c == '\r' || c == '\t' || c == '\0' {
        assert(s.len() >= 2 && s[0] == '\\');
        assert(s.skip(2) =~= tail);
    } else if (c as u32) <= 0x1f || (c as u32) == 0x7f {
        let n = c as nat;
        if n < 16 {
            assert(hex_seq(n) =~= seq![hex_digit(n)]);
            lemma_hex_digit_val(n);
            assert(s =~= seq!['\\', 'u', '{', hex_digit(n), '}'] + tail);
            assert(s.len() >= 5 && s[0] == '\\' && s[1] == 'u' && s[2] == '{' && s[4] == '}');
            assert(is_hex_digit(s[3]));
            assert((hex_val(s[3]) as u8) as char == c);
            assert(s.skip(5) =~= tail);
        } else {
            assert(hex_seq(n / 16) =~= seq![hex_digit(n / 16)]);
            assert(hex_seq(n) =~= seq![hex_digit(n / 16), hex_digit(n % 16)]);
            lemma_hex_digit_val(n / 16);
            lemma_hex_digit_val(n % 16);
            assert(s =~= seq!['\\', 'u', '{', hex_digit(n / 16), hex_digit(n % 16), '}'] + tail);
            assert(s.len() >= 6 && s[0] == '\\' && s[1] == 'u' && s[2] == '{' && s[5] == '}');
            assert(is_hex_digit(s[3]) && is_hex_digit(s[4]));
            assert(s[4] != '}');
            assert(16 * hex_val(s[3]) + hex_val(s[4]) == n);
            assert(((16 * hex_val(s[3]) + hex_val(s[4])) as u8) as char == c);
            assert(s.skip(6) =~= tail);
        }
    } else {
        assert(s[0] == c && s[0] != '\\');
        assert(s.skip(1) =~= tail);
    }
}

/// Un-escaping inverts escaping on whole texts.
pub proof fn lemma_unescape_escape(v: Seq<char>)
    ensures
        unescape_seq(escape_seq(v)) == Some(v),
    decreases v.len(),
{
    if v.len() == 0 {
        assert(escape_seq(v) =~= Seq::<char>::empty());
    } else {
        lemma_unescape_escape(v.skip(1));
        lemma_unescape_char(v[0], escape_seq(v.skip(1)));
        assert(seq![v[0]] + v.skip(1) =~= v);
    }
}

/// A value with no quoting-triggering character encodes to itself,
/// unquoted and unchanged.
pub proof fn lemma_encode_plain(v: Seq<char>)
    requires
        !needs_quoting(v),
    ensures
        encode_value(v) == v,
{
}

/// A value with a quoting-triggering character encodes to a quoted
/// token: it begins and ends with `"`, and un-escaping its interior by
/// the inverse of the escape rules gives back the value exactly.
pub proof fn lemma_encode_quoted_round_trip(v: Seq<char>)
    requires
        needs_quoting(v),
    ensures
        ({
            let e = encode_value(v);
            &&& e.len() >= 2
            &&& e[0] == '"'
            &&& e[e.len() - 1] == '"'
            &&& unescape_seq(e.subrange(1, e.len() - 1)) == Some(v)
        }),
{
    let e = encode_value(v);
    lemma_unescape_escape(v);
    assert(e.subrange(1, e.len() - 1) =~= escape_seq(v));
}

/// One `key=value` token appended to an output: the separator, then the
/// token.
pub open spec fn entry_append(out: Seq<char>, k: Seq<char>, v: Seq<char>) -> Seq<char> {
    out + sep_for(out) + entry_token(k, v)
}

/// Writing the same printable, separator-free value twice as successive
/// tokens yields the token text twice with exactly one space between:
/// no character of the token is a space, so the separators are the only
/// spaces, and none leads or trails.
pub proof fn lemma_no_quoting_separation(k: Seq<char>, v: Seq<char>)
    requires
        clean_key(k).len() > 0,
        !needs_quoting(v),
    ensures
        ({
            let t = entry_token(k, v);
            &&& entry_append(Seq::<char>::empty(), k, v) == t
            &&& entry_append(entry_append(Seq::<char>::empty(), k, v), k, v) == t + seq![' '] + t
            &&& forall|i: int| 0 <= i < t.len() ==> t[i] != ' '
        }),
{
    let t = entry_token(k, v);
    assert(entry_append(Seq::<char>::empty(), k, v) =~= t);
    assert(entry_append(t, k, v) =~= t + seq![' '] + t);
    lemma_encode_plain(v);
    assert forall|i: int| 0 <= i < t.len() implies t[i] != ' ' by {
        let ck = clean_key(k);
        if i < ck.len() {
            k.lemma_filter_pred(|ch: char| !need_quote_spec(ch), i);
            assert(t[i] == ck[i]);
            assert(!need_quote_spec(ck[i]));
        } else if i == ck.len() {
            assert(t[i] == '=');
        } else {
            assert(t[i] == v[i - ck.len() - 1]);
            assert(!need_quote_spec(v[i - ck.len() - 1]));
        }
    }
}

/// Relies on String::push: appends exactly the one character.
#[verifier::external_body]
pub(crate) fn push_char(s: &mut String, c: char)
    ensures
        final(s)@ == old(s)@ + seq![c],
{
    s.push(c)
}

/// Serializes key/value pairs into logfmt format.
pub struct Serializer {
    pub output: String,
}

impl Serializer {
    /// A fresh serializer over an empty output.
    pub fn new() -> (s: Self)
        ensures
            s.output@ == Seq::<char>::empty(),
    {
        Serializer { output: String::new() }
    }

    /// Whether `ch` forces quoting.
    pub fn need_quote(ch: char) -> (r: bool)
        ensures
            r == need_quote_spec(ch),
    {
        (ch as u32) <= 32 || ch == '=' || ch == '"'
    }

    /// Sanitizes `key` by stripping every quoting-triggering character.
    /// When something is left, appends the separator and the sanitized key;
    /// when nothing is left, fails with `InvalidKey` and writes nothing.
    pub fn serialize_key(&mut self, key: &str) -> (r: Result<(), SerializerError>)
        ensures
            match r {
                Ok(_) => clean_key(key@).len() > 0 && final(self).output@ == old(self).output@
                    + sep_for(old(self).output@) + clean_key(key@),
                Err(e) => e == SerializerError::InvalidKey && clean_key(key@).len() == 0
                    && final(self).output@ == old(self).output@,
            },
    {
        let n = key.unicode_len();
        let mut cleaned = String::new();
        let mut i: usize = 0;
        while i < n
            invariant
                i <= n,
                n == key@.len(),
                cleaned@ == clean_key(key@.take(i as int)),
            decreases n - i,
        {
            let c = key.get_char(i);
            if !Self::need_quote(c) {
                push_char(&mut cleaned, c);
            }
            proof {
                assert(key@.take(i + 1) =~= key@.take(i as int).push(key@[i as int]));
                key@.take(i as int).lemma_filter_push(
                    key@[i as int],
                    |ch: char| !need_quote_spec(ch),
                );
            }
            i = i + 1;
        }
        proof {
            assert(key@.take(n as int) =~= key@);
        }
        if cleaned.as_str().is_empty() {
            return Err(SerializerError::InvalidKey);
        }
        if !self.output.as_str().is_empty() {
            push_char(&mut self.output, ' ');
        }
        self.output.append(cleaned.as_str());
        proof {
            assert(final(self).output@ =~= old(self).output@ + sep_for(old(self).output@)
                + clean_key(key@));
        }
        Ok(())
    }

    /// Appends one `key=value` token: the sanitized key, `=`, then the
    /// encoded value, preceded by the separator. Fails with `InvalidKey`,
    /// writing nothing, when the key sanitizes to the empty string.
    pub fn serialize_entry(&mut self, key: &str, value: &str) -> (r: Result<
        (),
        SerializerError,
    >)
        ensures
            match r {
                Ok(_) => clean_key(key@).len() > 0 && final(self).output@ == old(self).output@
                    + sep_for(old(self).output@) + entry_token(key@, value@),
                Err(e) => e == SerializerError::InvalidKey && clean_key(key@).len() == 0
                    && final(self).output@ == old(self).output@,
            },
    {
        self.serialize_key(key)?;
        push_char(&mut self.output, '=');
        self.serialize_value(value)?;
        proof {
            assert(final(self).output@ =~= old(self).output@ + sep_for(old(self).output@)
                + entry_token(key@, value@));
        }
        Ok(())
    }

    /// Appends one `key=value` token whose value is written verbatim,
    /// without quoting or escaping; the caller guarantees that the
    /// rendering of such a value never contains a quoting-triggering
    /// character. Fails with `InvalidKey`, writing nothing, when the key
    /// sanitizes to the empty string.
    pub fn serialize_entry_no_quote(&mut self, key: &str, value: &str) -> (r: Result<
        (),
        SerializerError,
    >)
        requires
            !needs_quoting(value@),
        ensures
            match r {
                Ok(_) => clean_key(key@).len() > 0 && final(self).output@ == old(self).output@
                    + sep_for(old(self).output@) + clean_key(key@) + seq!['='] + value@,
                Err(e) => e == SerializerError::InvalidKey && clean_key(key@).len() == 0
                    && final(self).output@ == old(self).output@,
            },
    {
        self.serialize_key(key)?;
        push_char(&mut self.output, '=');
        self.output.append(value);
        Ok(())
    }

    /// Appends one token whose value is the decimal rendering of an
    /// unsigned number, written without quotes.
    pub fn serialize_entry_u64(&mut self, key: &str, value: u64) -> (r: Result<
        (),
        SerializerError,
    >)
        ensures
            match r {
                Ok(_) => clean_key(key@).len() > 0 && final(self).output@ == old(self).output@
                    + sep_for(old(self).output@) + clean_key(key@) + seq!['='] + dec_seq(
                    value as nat,
                ),
                Err(e) => e == SerializerError::InvalidKey && clean_key(key@).len() == 0
                    && final(self).output@ == old(self).output@,
            },
    {
        let mut rendered = String::new();
        push_u64(&mut rendered, value);
        proof {
            lemma_dec_seq_no_quote(value as nat);
        }
        self.serialize_entry_no_quote(key, rendered.as_str())
    }

    /// Appends one token whose value is the decimal rendering of a signed
    /// number, written without quotes.
    pub fn serialize_entry_i64(&mut self, key: &str, value: i64) -> (r: Result<
        (),
        SerializerError,
    >)
        ensures
            match r {
                Ok(_) => clean_key(key@).len() > 0 && final(self).output@ == old(self).output@
                    + sep_for(old(self).output@) + clean_key(key@) + seq!['='] + dec_signed(
                    value as int,
                ),
                Err(e) => e == SerializerError::InvalidKey && clean_key(key@).len() == 0
                    && final(self).output@ == old(self).output@,
            },
    {
        let mut rendered = String::new();
        if value < 0 {
            push_char(&mut rendered, '-');
            let magnitude: u64 = if value == i64::MIN {
                9223372036854775808u64
            } else {
                (-value) as u64
            };
            push_u64(&mut rendered, magnitude);
        } else {
            push_u64(&mut rendered, value as u64);
        }
        proof {
            lemma_dec_signed_no_quote(value as int);
            assert(rendered@ =~= dec_signed(value as int));
        }
        self.serialize_entry_no_quote(key, rendered.as_str())
    }

    /// Appends one token whose value is the rendering of a boolean,
    /// written without quotes.
    pub fn serialize_entry_bool(&mut self, key: &str, value: bool) -> (r: Result<
        (),
        SerializerError,
    >)
        ensures
            match r {
                Ok(_) => clean_key(key@).len() > 0 && final(self).output@ == old(self).output@
                    + sep_for(old(self).output@) + clean_key(key@) + seq!['='] + bool_seq(value),
                Err(e) => e == SerializerError::InvalidKey && clean_key(key@).len() == 0
                    && final(self).output@ == old(self).output@,
            },
    {
        let rendered: &str = if value {
            "true"
        } else {
            "false"
        };
        proof {
            reveal_strlit("true");
            reveal_strlit("false");
            assert(rendered@ =~= bool_seq(value));
            lemma_bool_seq_no_quote(value);
        }
        self.serialize_entry_no_quote(key, rendered)
    }

    /// Appends the rendering of `value`: verbatim when no character forces
    /// quoting, otherwise quoted and escaped. Never fails.
    pub fn serialize_value(&mut self, value: &str) -> (r: Result<(), SerializerError>)
        ensures
            r is Ok,
            final(self).output@ == old(self).output@ + encode_value(value@),
    {
        let quote = scan_needs_quote(value);
        if quote {
            let n = value.unicode_len();
            push_char(&mut self.output, '"');
            let mut j: usize = 0;
            while j < n
                invariant
                    j <= n,
                    n == value@.len(),
                    self.output@ == old(self).output@ + seq!['"'] + escape_seq(value@.take(j as int)),
            decreases n - j,
            {
                let c = value.get_char(j);
                push_escaped(&mut self.output, c);
                proof {
                    lemma_escape_seq_take_step(value@, j as int);
                }
                j = j + 1;
            }
            push_char(&mut self.output, '"');
            proof {
                assert(value@.take(n as int) =~= value@);
                assert(final(self).output@ =~= old(self).output@ + encode_value(value@));
            }
        } else {
            self.output.append(value);
        }
        Ok(())
    }
}

/// Whether any character of `v` forces quoting.
pub(crate) fn scan_needs_quote(v: &str) -> (b: bool)
    ensures
        b == needs_quoting(v@),
{
    let n = v.unicode_len();
    let mut quote = false;
    let mut i: usize = 0;
    while i < n
        invariant
            i <= n,
            n == v@.len(),
            quote == needs_quoting(v@.take(i as int)),
        decreases n - i,
    {
        if Serializer::need_quote(v.get_char(i)) {
            quote = true;
        }
        proof {
            lemma_needs_quoting_take_step(v@, i as int);
        }
        i = i + 1;
    }
    proof {
        assert(v@.take(n as int) =~= v@);
    }
    quote
}

/// Sanitizing keeps a key unchanged when none of its characters forces
/// quoting.
pub proof fn lemma_clean_key_id(s: Seq<char>)
    requires
        forall|i: int| 0 <= i < s.len() ==> !need_quote_spec(#[trigger] s[i]),
    ensures
        clean_key(s) == s,
    decreases s.len(),
{
    if s.len() > 0 {
        lemma_clean_key_id(s.drop_last());
        s.drop_last().lemma_filter_push(s.last(), |ch: char| !need_quote_spec(ch));
        assert(s.drop_last().push(s.last()) =~= s);
        assert(clean_key(s) =~= s);
    } else {
        assert(clean_key(s) =~= s);
    }
}

/// Appends the decimal rendering of `n`.
pub(crate) fn push_u64(out: &mut String, n: u64)
    ensures
        final(out)@ == old(out)@ + dec_seq(n as nat),
    decreases n,
{
    if n >= 10 {
        push_u64(out, n / 10);
    }
    push_char(out, dec_char((n % 10) as u8));
    proof {
        if n >= 10 {
            assert(dec_seq(n as nat) =~= dec_seq((n as nat) / 10).push(dec_digit((n as nat) % 10)));
            assert(final(out)@ =~= old(out)@ + dec_seq(n as nat));
        }
    }
}

/// The decimal digit character for `d`.
fn dec_char(d: u8) -> (c: char)
    requires
        d < 10,
    ensures
        c == dec_digit(d as nat),
{
    (d + 48) as char
}

/// Appends the escape of the single character `c`.
fn push_escaped(out: &mut String, c: char)
    ensures
        final(out)@ == old(out)@ + escape_char(c),
{
    if c == '"' {
        out.append("\\\"");
        proof {
            reveal_strlit("\\\"");
            assert(final(out)@ =~= old(out)@ + escape_char(c));
        }
    } else if c == '\\' {
        out.append("\\\\");
        proof {
            reveal_strlit("\\\\");
            assert(final(out)@ =~= old(out)@ + escape_char(c));
        }
    } else if c == '\n' {
        out.append("\\n");
        proof {
            reveal_strlit("\\n");
            assert(final(out)@ =~= old(out)@ + escape_char(c));
        }
    } else if c == '\r' {
        out.append("\\r");
        proof {
            reveal_strlit("\\r");
            assert(final(out)@ =~= old(out)@ + escape_char(c));
        }
    } else if c == '\t' {
        out.append("\\t");
        proof {
            reveal_strlit("\\t");
            assert(final(out)@ =~= old(out)@ + escape_char(c));
        }
    } else if c == '\0' {
        out.append("\\0");
        proof {
            reveal_strlit("\\0");
            assert(final(out)@ =~= old(out)@ + escape_char(c));
        }
    } else if (c as u32) <= 0x1f || (c as u32) == 0x7f {
        out.append("\\u{");
        let code = c as u32;
        if code >= 16 {
            push_char(out, hex_char((code / 16) as u8));
        }
        push_char(out, hex_char((code % 16) as u8));
        out.append("}");
        proof {
            reveal_strlit("\\u{");
            reveal_strlit("}");
            if code >= 16 {
                assert(hex_seq((c as nat) / 16) =~= seq![hex_digit((c as nat) / 16)]);
                assert(hex_seq(c as nat) =~= seq![
                    hex_digit((c as nat) / 16),
                    hex_digit((c as nat) % 16),
                ]);
            }
            assert(final(out)@ =~= old(out)@ + escape_char(c));
        }
    } else {
        push_char(out, c);
        proof {
            assert(final(out)@ =~= old(out)@ + escape_char(c));
        }
    }
}

/// The lower-case hexadecimal digit character for `d`.
fn hex_char(d: u8) -> (c: char)
    requires
        d < 16,
    ensures
        c == hex_digit(d as nat),
{
    if d < 10 {
        (d + 48) as char
    } else {
        (d + 87) as char
    }
}

/// Scanning one more character extends the quoting decision over a prefix.
proof fn lemma_needs_quoting_take_step(v: Seq<char>, i: int)
    requires
        0 <= i < v.len(),
    ensures
        needs_quoting(v.take(i + 1)) == (needs_quoting(v.take(i)) || need_quote_spec(v[i])),
{
    let a = v.take(i);
    let b = v.take(i + 1);
    assert(b =~= a.push(v[i]));
    if needs_quoting(a) {
        let j = choose|j: int| 0 <= j < a.len() && need_quote_spec(a[j]);
        assert(need_quote_spec(b[j]));
    }
    if need_quote_spec(v[i]) {
        assert(need_quote_spec(b[i]));
    }
    if needs_quoting(b) && !need_quote_spec(v[i]) {
        let j = choose|j: int| 0 <= j < b.len() && need_quote_spec(b[j]);
        if j < i {
            assert(need_quote_spec(a[j]));
        }
    }
}

/// Escaping one more character extends the escape of a prefix.
proof fn lemma_escape_seq_take_step(v: Seq<char>, i: int)
    requires
        0 <= i < v.len(),
    ensures
        escape_seq(v.take(i + 1)) == escape_seq(v.take(i)) + escape_char(v[i]),
    decreases i,
{
    let a = v.take(i);
    let b = v.take(i + 1);
    if i == 0 {
        assert(b =~= seq![v[0]]);
        assert(b.skip(1) =~= Seq::<char>::empty());
        assert(escape_seq(b) =~= escape_char(v[0]) + escape_seq(b.skip(1)));
        assert(escape_seq(a) =~= Seq::<char>::empty());
        assert(escape_seq(b) =~= escape_seq(a) + escape_char(v[0]));
    } else {
        lemma_escape_seq_take_step(v.skip(1), i - 1);
        assert(a.skip(1) =~= v.skip(1).take(i - 1));
        assert(b.skip(1) =~= v.skip(1).take(i));
        assert(a[0] == v[0]);
        assert(b[0] == v[0]);
        assert(escape_seq(b) == escape_char(v[0]) + escape_seq(b.skip(1)));
        assert(escape_seq(a) == escape_char(v[0]) + escape_seq(a.skip(1)));
        assert(v.skip(1)[i - 1] == v[i]);
        assert(escape_seq(b) =~= escape_seq(a) + escape_char(v[i]));
    }
}

} // verus!
