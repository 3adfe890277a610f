//! The event assembler: renders one log event as a single logfmt line,
//! with the standard attributes in a fixed order, then every
//! event-supplied field, through the key/value serializer.

pub mod builder;

use vstd::prelude::*;

use crate::serializer::{
    bool_seq, clean_key, dec_seq, dec_signed, encode_value, lemma_clean_key_id, need_quote_spec,
    needs_quoting, push_char, push_u64, scan_needs_quote, sep_for, Serializer, SerializerError,
};

verus! {

/// The severity of an event, from most to least severe.
#[derive(Clone, Copy, Debug, PartialEq, Eq)]
pub enum Level {
    Error,
    Warn,
    Info,
    Debug,
    Trace,
}

/// The lower-cased short name of a severity level.
pub open spec fn level_seq(l: Level) -> Seq<char> {
    match l {
        Level::Error => "error"@,
        Level::Warn => "warn"@,
        Level::Info => "info"@,
        Level::Debug => "debug"@,
        Level::Trace => "trace"@,
    }
}

/// No character of a level name forces quoting.
pub proof fn lemma_level_seq_no_quote(l: Level)
    ensures
        !needs_quoting(level_seq(l)),
{
    reveal_strlit("error");
    reveal_strlit("warn");
    reveal_strlit("info");
    reveal_strlit("debug");
    reveal_strlit("trace");
}

/// One value supplied with an event: a scalar rendered without quotes,
/// or a text rendered through the quoting path.
#[derive(Debug)]
pub enum FieldValue {
    I64(i64),
    U64(u64),
    Bool(bool),
    Text(String),
}

/// One named field of an event.
#[derive(Debug)]
pub struct LogField {
    pub name: String,
    pub value: FieldValue,
}

/// The rendering of a field's value: scalars in their decimal or boolean
/// form, never quoted; texts encoded by the normal value rule.
pub open spec fn field_value_seq(v: FieldValue) -> Seq<char> {
    match v {
        FieldValue::I64(n) => dec_signed(n as int),
        FieldValue::U64(n) => dec_seq(n as nat),
        FieldValue::Bool(b) => bool_seq(b),
        FieldValue::Text(s) => encode_value(s@),
    }
}

/// The token a field renders to.
pub open spec fn field_token(f: LogField) -> Seq<char> {
    clean_key(f.name@) + seq!['='] + field_value_seq(f.value)
}

/// A field can be written when its key survives sanitizing.
pub open spec fn field_key_ok(f: LogField) -> bool {
    clean_key(f.name@).len() > 0
}

/// Every field of the sequence can be written.
pub open spec fn fields_valid(fs: Seq<LogField>) -> bool {
    forall|i: int| 0 <= i < fs.len() ==> field_key_ok(#[trigger] fs[i])
}

/// The output after writing the fields in order, stopping at the first
/// whose key sanitizes to the empty string.
pub open spec fn render_fields(out: Seq<char>, fs: Seq<LogField>) -> Seq<char>
    decreases fs.len(),
{
    if fs.len() == 0 {
        out
    } else if !field_key_ok(fs[0]) {
        out
    } else {
        render_fields(out + sep_for(out) + field_token(fs[0]), fs.skip(1))
    }
}

/// Writes the fields in order, one token each. Stops at the first field
/// whose key sanitizes to the empty string and surfaces its error; the
/// fields already written stay in the output.
pub fn serialize_fields(s: &mut Serializer, fields: &Vec<LogField>) -> (r: Result<
    (),
    SerializerError,
>)
    ensures
        final(s).output@ == render_fields(old(s).output@, fields@),
        r is Ok <==> fields_valid(fields@),
        r matches Err(e) ==> e == SerializerError::InvalidKey,
{
    proof {
        assert(fields@.skip(0) =~= fields@);
    }
    let mut i: usize = 0;
    while i < fields.len()
        invariant
            i <= fields@.len(),
            render_fields(old(s).output@, fields@) == render_fields(s.output@, fields@.skip(i as int)),
            fields_valid(fields@.take(i as int)),
        decreases fields@.len() - i,
    {
        let f = &fields[i];
        let ghost pre: Seq<char> = s.output@;
        let r = match &f.value {
            FieldValue::I64(n) => s.serialize_entry_i64(f.name.as_str(), *n),
            FieldValue::U64(n) => s.serialize_entry_u64(f.name.as_str(), *n),
            FieldValue::Bool(b) => s.serialize_entry_bool(f.name.as_str(), *b),
            FieldValue::Text(t) => s.serialize_entry(f.name.as_str(), t.as_str()),
        };
        proof {
            assert(fields@.skip(i as int)[0] == fields@[i as int]);
            assert(fields@.skip(i as int).skip(1) =~= fields@.skip(i + 1));
        }
        match r {
            Ok(_) => {
                proof {
                    assert(fields@.take(i + 1) =~= fields@.take(i as int).push(fields@[i as int]));
                    assert(s.output@ =~= pre + sep_for(pre) + field_token(fields@[i as int]));
                }
            },
            Err(e) => {
                proof {
                    assert(s.output@ == pre);
                    assert(!field_key_ok(fields@[i as int]));
                    assert(render_fields(pre, fields@.skip(i as int)) == pre);
                }
                return Err(e);
            },
        }
        i = i + 1;
    }
    proof {
        assert(fields@.skip(fields@.len() as int) =~= Seq::<LogField>::empty());
        assert(fields@.take(fields@.len() as int) =~= fields@);
    }
    Ok(())
}

/// The `>`-joined path of context names, from the root of the chain to
/// the reference context.
pub open spec fn join_path(names: Seq<Seq<char>>) -> Seq<char>
    decreases names.len(),
{
    if names.len() == 0 {
        Seq::<char>::empty()
    } else if names.len() == 1 {
        names[0]
    } else {
        join_path(names.drop_last()) + seq!['>'] + names.last()
    }
}

/// When no context name forces quoting, neither does the joined path.
pub proof fn lemma_join_path_no_quote(names: Seq<Seq<char>>)
    requires
        forall|i: int| 0 <= i < names.len() ==> !needs_quoting(#[trigger] names[i]),
    ensures
        !needs_quoting(join_path(names)),
    decreases names.len(),
{
    if names.len() > 1 {
        lemma_join_path_no_quote(names.drop_last());
        let a = join_path(names.drop_last());
        let b = names.last();
        let j = join_path(names);
        assert(!needs_quoting(b));
        assert forall|i: int| 0 <= i < j.len() implies !need_quote_spec(j[i]) by {
            if i < a.len() {
                assert(j[i] == a[i]);
                assert(!need_quote_spec(a[i]));
            } else if i == a.len() {
                assert(j[i] == '>');
            } else {
                assert(j[i] == b[i - a.len() - 1]);
                assert(!need_quote_spec(b[i - a.len() - 1]));
            }
        }
    }
}

/// The output after the pre-rendered field text of every context in the
/// chain is appended, space-prefixed, skipping contexts with no text.
pub open spec fn span_fields_suffix(out: Seq<char>, texts: Seq<Seq<char>>) -> Seq<char>
    decreases texts.len(),
{
    if texts.len() == 0 {
        out
    } else {
        let with_first = if texts[0].len() > 0 {
            out + seq![' '] + texts[0]
        } else {
            out
        };
        span_fields_suffix(with_first, texts.skip(1))
    }
}

/// A formatter that renders events into logfmt lines, with independent
/// toggles for the optional standard attributes.
pub struct EventsFormatter {
    pub with_level: bool,
    pub with_target: bool,
    pub with_span_name: bool,
    pub with_span_path: bool,
    pub with_location: bool,
    pub with_mod_path: bool,
}

/// One event, as the host hands it over: severity, logical source,
/// optional call-site file, line and code-module path, and the
/// user-supplied fields in the order the host presents them.
pub struct LogEvent {
    pub level: Level,
    pub target: String,
    pub file: Option<String>,
    pub line: Option<u64>,
    pub mod_path: Option<String>,
    pub fields: Vec<LogField>,
}

/// The standard attributes of one line, in their fixed order: timestamp,
/// severity, logical source, call-site location, module path, context
/// name and context path, each conditional on its toggle.
pub open spec fn std_prefix(
    fmt: EventsFormatter,
    ev: LogEvent,
    names: Seq<Seq<char>>,
    ts: Seq<char>,
) -> Seq<char> {
    let o = "ts"@ + seq!['='] + ts;
    let o = if fmt.with_level {
        o + seq![' '] + "level"@ + seq!['='] + level_seq(ev.level)
    } else {
        o
    };
    let o = if fmt.with_target {
        o + seq![' '] + "target"@ + seq!['='] + encode_value(ev.target@)
    } else {
        o
    };
    let o = if fmt.with_location && ev.file is Some && ev.line is Some {
        o + seq![' '] + "location"@ + seq!['='] + encode_value(
            ev.file->Some_0@ + seq![':'] + dec_seq(ev.line->Some_0 as nat),
        )
    } else {
        o
    };
    let o = if fmt.with_mod_path && ev.mod_path is Some {
        o + seq![' '] + "module"@ + "_path"@ + seq!['='] + encode_value(ev.mod_path->Some_0@)
    } else {
        o
    };
    let o = if fmt.with_span_name && names.len() > 0 {
        o + seq![' '] + "span"@ + seq!['='] + encode_value(names.last())
    } else {
        o
    };
    let o = if fmt.with_span_path && names.len() > 0 {
        o + seq![' '] + "span_path"@ + seq!['='] + encode_value(join_path(names))
    } else {
        o
    };
    o
}

/// The whole line an event renders to: the standard attributes, then the
/// event's fields, then the pre-rendered context field text, then a
/// newline.
pub open spec fn line_spec(
    fmt: EventsFormatter,
    ev: LogEvent,
    names: Seq<Seq<char>>,
    texts: Seq<Seq<char>>,
    ts: Seq<char>,
) -> Seq<char> {
    span_fields_suffix(render_fields(std_prefix(fmt, ev, names, ts), ev.fields@), texts)
        + seq!['\n']
}

/// Writes the timestamp token: `ts=` and the rendering, verbatim.
fn write_ts(s: &mut Serializer, ts: &str)
    requires
        !needs_quoting(ts@),
    ensures
        final(s).output@ == old(s).output@ + sep_for(old(s).output@) + "ts"@ + seq!['='] + ts@,
{
    proof {
        reveal_strlit("ts");
        lemma_clean_key_id("ts"@);
    }
    match s.serialize_entry_no_quote("ts", ts) {
        Ok(_) => {},
        Err(_) => {
            proof {
                assert(false);
            }
        },
    }
    proof {
        assert(s.output@ =~= old(s).output@ + sep_for(old(s).output@) + "ts"@ + seq!['=']
            + ts@);
    }
}

/// Writes the severity token: `level=` and the lower-cased level name.
fn write_level(s: &mut Serializer, l: Level)
    ensures
        final(s).output@ == old(s).output@ + sep_for(old(s).output@) + "level"@ + seq!['=']
            + level_seq(l),
{
    let lvl: &str = match l {
        Level::Error => "error",
        Level::Warn => "warn",
        Level::Info => "info",
        Level::Debug => "debug",
        Level::Trace => "trace",
    };
    proof {
        reveal_strlit("level");
        lemma_clean_key_id("level"@);
        lemma_level_seq_no_quote(l);
        assert(lvl@ == level_seq(l));
    }
    match s.serialize_entry("level", lvl) {
        Ok(_) => {},
        Err(_) => {
            proof {
                assert(false);
            }
        },
    }
    proof {
        assert(s.output@ =~= old(s).output@ + sep_for(old(s).output@) + "level"@ + seq!['=']
            + level_seq(l));
    }
}

/// Writes the logical-source token: `target=` and the encoded source.
fn write_target(s: &mut Serializer, target: &str)
    ensures
        final(s).output@ == old(s).output@ + sep_for(old(s).output@) + "target"@ + seq!['=']
            + encode_value(target@),
{
    proof {
        reveal_strlit("target");
        lemma_clean_key_id("target"@);
    }
    match s.serialize_entry("target", target) {
        Ok(_) => {},
        Err(_) => {
            proof {
                assert(false);
            }
        },
    }
    proof {
        assert(s.output@ =~= old(s).output@ + sep_for(old(s).output@) + "target"@ + seq!['=']
            + encode_value(target@));
    }
}

/// Writes the call-site token: `location=` and the encoded `file:line`.
fn write_location(s: &mut Serializer, file: &str, line: u64)
    ensures
        final(s).output@ == old(s).output@ + sep_for(old(s).output@) + "location"@ + seq!['=']
            + encode_value(file@ + seq![':'] + dec_seq(line as nat)),
{
    let mut loc = String::new();
    loc.append(file);
    push_char(&mut loc, ':');
    push_u64(&mut loc, line);
    proof {
        reveal_strlit("location");
        lemma_clean_key_id("location"@);
        assert(loc@ =~= file@ + seq![':'] + dec_seq(line as nat));
    }
    match s.serialize_entry("location", loc.as_str()) {
        Ok(_) => {},
        Err(_) => {
            proof {
                assert(false);
            }
        },
    }
    proof {
        assert(s.output@ =~= old(s).output@ + sep_for(old(s).output@) + "location"@ + seq!['=']
            + encode_value(file@ + seq![':'] + dec_seq(line as nat)));
    }
}

/// Writes the code-module token and the encoded module path.
fn write_mod_path(s: &mut Serializer, mp: &str)
    ensures
        final(s).output@ == old(s).output@ + sep_for(old(s).output@) + "module"@ + "_path"@
            + seq!['='] + encode_value(mp@),
{
    let mut key = String::new();
    key.append("module");
    key.append("_path");
    proof {
        reveal_strlit("module");
        reveal_strlit("_path");
        let k = "module"@ + "_path"@;
        assert forall|i: int| 0 <= i < k.len() implies !need_quote_spec(k[i]) by {
            if i < "module"@.len() {
                assert(k[i] == "module"@[i]);
            } else {
                assert(k[i] == "_path"@[i - "module"@.len()]);
            }
        }
        lemma_clean_key_id(k);
        assert(key@ == k);
    }
    match s.serialize_entry(key.as_str(), mp) {
        Ok(_) => {},
        Err(_) => {
            proof {
                assert(false);
            }
        },
    }
    proof {
        assert(s.output@ =~= old(s).output@ + sep_for(old(s).output@) + "module"@ + "_path"@
            + seq!['='] + encode_value(mp@));
    }
}

/// Writes the context-name token: `span=` and the encoded name of the
/// reference context.
fn write_span(s: &mut Serializer, name: &str)
    ensures
        final(s).output@ == old(s).output@ + sep_for(old(s).output@) + "span"@ + seq!['=']
            + encode_value(name@),
{
    proof {
        reveal_strlit("span");
        lemma_clean_key_id("span"@);
    }
    match s.serialize_entry("span", name) {
        Ok(_) => {},
        Err(_) => {
            proof {
                assert(false);
            }
        },
    }
    proof {
        assert(s.output@ =~= old(s).output@ + sep_for(old(s).output@) + "span"@ + seq!['=']
            + encode_value(name@));
    }
}

/// Writes the context-path token: `span_path=` and the `>`-joined chain
/// of context names, encoded by the normal value rule. A single fast
/// pass streams the join directly when no name forces quoting; otherwise
/// the join is built in a scratch buffer and submitted as one quoted
/// value. Both ways the token's value is the encoding of the join.
fn write_span_path(s: &mut Serializer, span_names: &Vec<String>)
    ensures
        final(s).output@ == old(s).output@ + sep_for(old(s).output@) + "span_path"@ + seq!['=']
            + encode_value(join_path(span_names.deep_view())),
{
    let ghost names: Seq<Seq<char>> = span_names.deep_view();
    proof {
        reveal_strlit("span_path");
        lemma_clean_key_id("span_path"@);
    }
    match s.serialize_key("span_path") {
        Ok(_) => {},
        Err(_) => {
            proof {
                assert(false);
            }
        },
    }
    push_char(&mut s.output, '=');
    let ghost base: Seq<char> = old(s).output@ + sep_for(old(s).output@) + "span_path"@
        + seq!['='];
    proof {
        assert(s.output@ =~= base);
    }

    let mut any_quote = false;
    let mut k: usize = 0;
    while k < span_names.len()
        invariant
            k <= span_names@.len(),
            names == span_names.deep_view(),
            any_quote == (exists|j: int| 0 <= j < k && needs_quoting(#[trigger] names[j])),
        decreases span_names@.len() - k,
    {
        let nq = scan_needs_quote(span_names[k].as_str());
        proof {
            assert(names[k as int] == span_names@[k as int]@);
            if any_quote || nq {
                if nq {
                    assert(needs_quoting(names[k as int]));
                } else {
                    let j = choose|j: int| 0 <= j < k && needs_quoting(#[trigger] names[j]);
                    assert(needs_quoting(names[j]));
                }
                assert(exists|j: int| 0 <= j < k + 1 && needs_quoting(#[trigger] names[j]));
            } else {
                assert forall|j: int| 0 <= j < k + 1 implies !needs_quoting(
                    #[trigger] names[j],
                ) by {
                    if j < k {
                        assert(!needs_quoting(names[j]));
                    }
                }
            }
        }
        if nq {
            any_quote = true;
        }
        k = k + 1;
    }

    if any_quote {
        let mut path = String::new();
        let mut k2: usize = 0;
        while k2 < span_names.len()
            invariant
                k2 <= span_names@.len(),
                names == span_names.deep_view(),
                path@ == join_path(names.take(k2 as int)),
            decreases span_names@.len() - k2,
        {
            if k2 > 0 {
                push_char(&mut path, '>');
            }
            path.append(span_names[k2].as_str());
            proof {
                lemma_join_path_take_step(names, k2 as int);
                assert(path@ =~= join_path(names.take(k2 + 1)));
            }
            k2 = k2 + 1;
        }
        proof {
            assert(names.take(names.len() as int) =~= names);
        }
        match s.serialize_value(path.as_str()) {
            Ok(_) => {},
            Err(_) => {
                proof {
                    assert(false);
                }
            },
        }
        proof {
            assert(s.output@ =~= base + encode_value(join_path(names)));
        }
    } else {
        let mut k2: usize = 0;
        while k2 < span_names.len()
            invariant
                k2 <= span_names@.len(),
                names == span_names.deep_view(),
                s.output@ == base + join_path(names.take(k2 as int)),
            decreases span_names@.len() - k2,
        {
            if k2 > 0 {
                push_char(&mut s.output, '>');
            }
            s.output.append(span_names[k2].as_str());
            proof {
                lemma_join_path_take_step(names, k2 as int);
                assert(s.output@ =~= base + join_path(names.take(k2 + 1)));
            }
            k2 = k2 + 1;
        }
        proof {
            assert(names.take(names.len() as int) =~= names);
            lemma_join_path_no_quote(names);
            assert(encode_value(join_path(names)) == join_path(names));
        }
    }
}

/// Appends the pre-rendered field text of every context in the chain,
/// each prefixed by a space, skipping contexts with no text.
fn write_span_suffix(s: &mut Serializer, span_fields: &Vec<String>)
    ensures
        final(s).output@ == span_fields_suffix(old(s).output@, span_fields.deep_view()),
{
    let ghost texts: Seq<Seq<char>> = span_fields.deep_view();
    proof {
        assert(texts.skip(0) =~= texts);
    }
    let mut t: usize = 0;
    while t < span_fields.len()
        invariant
            t <= span_fields@.len(),
            texts == span_fields.deep_view(),
            span_fields_suffix(s.output@, texts.skip(t as int)) == span_fields_suffix(
                old(s).output@,
                texts,
            ),
        decreases span_fields@.len() - t,
    {
        let txt = &span_fields[t];
        let ghost pre: Seq<char> = s.output@;
        proof {
            assert(texts.skip(t as int)[0] == texts[t as int]);
            assert(texts.skip(t as int).skip(1) =~= texts.skip(t + 1));
            assert(texts[t as int] == span_fields@[t as int]@);
        }
        if !txt.as_str().is_empty() {
            push_char(&mut s.output, ' ');
            s.output.append(txt.as_str());
            proof {
                assert(s.output@ =~= pre + seq![' '] + texts[t as int]);
            }
        }
        t = t + 1;
    }
    proof {
        assert(texts.skip(texts.len() as int) =~= Seq::<Seq<char>>::empty());
    }
}

impl EventsFormatter {
    /// Renders one event as a single newline-terminated logfmt line: the
    /// standard attributes in their fixed order, then every event field
    /// in presentation order, then the pre-rendered field text of the
    /// active contexts. The timestamp is injected by the caller and is
    /// written verbatim; it never contains a quoting-triggering
    /// character. Fails, returning no output, exactly when some field
    /// key sanitizes to the empty string.
    #[verifier::rlimit(60)]
    pub fn format_event(
        &self,
        ts: &str,
        event: &LogEvent,
        span_names: &Vec<String>,
        span_fields: &Vec<String>,
    ) -> (r: Result<String, SerializerError>)
        requires
            !needs_quoting(ts@),
        ensures
            r is Ok <==> fields_valid(event.fields@),
            r matches Ok(line) ==> line@ == line_spec(
                *self,
                *event,
                span_names.deep_view(),
                span_fields.deep_view(),
                ts@,
            ),
            r matches Err(e) ==> e == SerializerError::InvalidKey,
    {
        let ghost names: Seq<Seq<char>> = span_names.deep_view();
        let ghost texts: Seq<Seq<char>> = span_fields.deep_view();
        let mut s = Serializer::new();

        write_ts(&mut s, ts);
        let ghost o_ts: Seq<char> = "ts"@ + seq!['='] + ts@;
        proof {
            assert(s.output@ =~= o_ts);
            assert(o_ts.len() > 0);
        }

        if self.with_level {
            proof {
                assert(sep_for(o_ts) == seq![' ']);
            }
            write_level(&mut s, event.level);
        }
        let ghost o_level: Seq<char> = if self.with_level {
            o_ts + seq![' '] + "level"@ + seq!['='] + level_seq(event.level)
        } else {
            o_ts
        };
        proof {
            assert(s.output@ == o_level);
            assert(o_level.len() > 0);
        }

        if self.with_target {
            proof {
                assert(sep_for(o_level) == seq![' ']);
            }
            write_target(&mut s, event.target.as_str());
        }
        let ghost o_target: Seq<char> = if self.with_target {
            o_level + seq![' '] + "target"@ + seq!['='] + encode_value(event.target@)
        } else {
            o_level
        };
        proof {
            assert(s.output@ == o_target);
            assert(o_target.len() > 0);
        }

        if self.with_location {
            if let Some(file) = &event.file {
                if let Some(line_no) = &event.line {
                    proof {
                        assert(sep_for(o_target) == seq![' ']);
                    }
                    write_location(&mut s, file.as_str(), *line_no);
                }
            }
        }
        let ghost o_location: Seq<char> = if self.with_location && event.file is Some
            && event.line is Some {
            o_target + seq![' '] + "location"@ + seq!['='] + encode_value(
                event.file->Some_0@ + seq![':'] + dec_seq(event.line->Some_0 as nat),
            )
        } else {
            o_target
        };
        proof {
            assert(s.output@ == o_location);
            assert(o_location.len() > 0);
        }

        if self.with_mod_path {
            if let Some(mp) = &event.mod_path {
                proof {
                    assert(sep_for(o_location) == seq![' ']);
                }
                write_mod_path(&mut s, mp.as_str());
            }
        }
        let ghost o_mod: Seq<char> = if self.with_mod_path && event.mod_path is Some {
            o_location + seq![' '] + "module"@ + "_path"@ + seq!['='] + encode_value(
                event.mod_path->Some_0@,
            )
        } else {
            o_location
        };
        proof {
            assert(s.output@ == o_mod);
            assert(o_mod.len() > 0);
        }

        let has_span = span_names.len() > 0;
        if self.with_span_name && has_span {
            let nm = &span_names[span_names.len() - 1];
            proof {
                assert(sep_for(o_mod) == seq![' ']);
                assert(nm@ == names.last());
            }
            write_span(&mut s, nm.as_str());
        }
        let ghost o_span: Seq<char> = if self.with_span_name && names.len() > 0 {
            o_mod + seq![' '] + "span"@ + seq!['='] + encode_value(names.last())
        } else {
            o_mod
        };
        proof {
            assert(s.output@ == o_span);
            assert(o_span.len() > 0);
        }

        if self.with_span_path && has_span {
            proof {
                assert(sep_for(o_span) == seq![' ']);
            }
            write_span_path(&mut s, span_names);
        }
        let ghost o_path: Seq<char> = if self.with_span_path && names.len() > 0 {
            o_span + seq![' '] + "span_path"@ + seq!['='] + encode_value(join_path(names))
        } else {
            o_span
        };
        proof {
            assert(s.output@ == o_path);
            assert(o_path == std_prefix(*self, *event, names, ts@));
        }

        if let Err(e) = serialize_fields(&mut s, &event.fields) {
            return Err(e);
        }
        let ghost o_fields: Seq<char> = render_fields(o_path, event.fields@);
        proof {
            assert(s.output@ == o_fields);
        }

        write_span_suffix(&mut s, span_fields);
        proof {
            assert(s.output@ == span_fields_suffix(o_fields, texts));
        }

        push_char(&mut s.output, '\n');
        proof {
            assert(s.output@ == line_spec(*self, *event, names, texts, ts@));
        }
        Ok(s.output)
    }
}

/// Joining one more context name extends the joined path of a prefix of
/// the chain with a separator and that name; the first name starts the
/// path without a separator.
proof fn lemma_join_path_take_step(names: Seq<Seq<char>>, k: int)
    requires
        0 <= k < names.len(),
    ensures
        join_path(names.take(k + 1)) == if k == 0 {
            names[0]
        } else {
            join_path(names.take(k)) + seq!['>'] + names[k]
        },
{
    let a = names.take(k + 1);
    if k == 0 {
        assert(a.len() == 1);
        assert(a[0] == names[0]);
    } else {
        assert(a.drop_last() =~= names.take(k));
        assert(a.last() == names[k]);
    }
}

/// Relies on time::OffsetDateTime::now_utc and OffsetDateTime::format
/// with the well-known RFC 3339 description: on success the rendering is
/// built only from ASCII digits and the characters `-`, `T`, `:`, `.`,
/// `+` and `Z`, none of which forces quoting; a failure of the
/// formatting step surfaces as `None`.
#[verifier::external_body]
fn now_rfc3339() -> (r: Option<String>)
    ensures
        r matches Some(ts) ==> !needs_quoting(ts@),
{
    time::OffsetDateTime::now_utc().format(&time::format_description::well_known::Rfc3339).ok()
}

impl EventsFormatter {
    /// Renders one event as `format_event` does, with the timestamp read
    /// from the wall clock and rendered in the RFC 3339 profile. On
    /// success the line follows the line grammar for some such
    /// timestamp; when the clock rendering fails the line is abandoned
    /// with a `Format` error, and an invalid field key surfaces as
    /// `InvalidKey` exactly as in `format_event`.
    pub fn format_event_now(
        &self,
        event: &LogEvent,
        span_names: &Vec<String>,
        span_fields: &Vec<String>,
    ) -> (r: Result<String, SerializerError>)
        ensures
            r matches Ok(line) ==> fields_valid(event.fields@) && (exists|ts: Seq<char>|
                !needs_quoting(ts) && line@ == line_spec(
                    *self,
                    *event,
                    span_names.deep_view(),
                    span_fields.deep_view(),
                    ts,
                )),
            r matches Err(e) ==> (e == SerializerError::InvalidKey && !fields_valid(
                event.fields@,
            )) || e == SerializerError::Format,
    {
        match now_rfc3339() {
            Some(ts) => {
                let r = self.format_event(ts.as_str(), event, span_names, span_fields);
                proof {
                    if r is Ok {
                        assert(!needs_quoting(ts@) && r->Ok_0@ == line_spec(
                            *self,
                            *event,
                            span_names.deep_view(),
                            span_fields.deep_view(),
                            ts@,
                        ));
                    }
                }
                r
            },
            None => Err(SerializerError::Format),
        }
    }
}

impl Default for EventsFormatter {
    /// The default toggles: severity, logical source, context name and
    /// context path on; call-site location and module path off.
    fn default() -> (r: Self)
        ensures
            r.with_level,
            r.with_target,
            r.with_span_name,
            r.with_span_path,
            !r.with_location,
            !r.with_mod_path,
    {
        EventsFormatter {
            with_level: true,
            with_target: true,
            with_span_name: true,
            with_span_path: true,
            with_location: false,
            with_mod_path: false,
        }
    }
}

/// A formatter that renders the fields attached to one context as logfmt
/// tokens; the host stores the result and hands it back, pre-rendered,
/// when a line is assembled inside that context.
pub struct FieldsFormatter {}

impl FieldsFormatter {
    /// Renders the fields into a fresh output, writing each in order and
    /// stopping at the first whose key sanitizes to the empty string.
    pub fn format_fields(&self, fields: &Vec<LogField>) -> (out: String)
        ensures
            out@ == render_fields(Seq::<char>::empty(), fields@),
    {
        let mut s = Serializer::new();
        let _ = serialize_fields(&mut s, fields);
        s.output
    }
}

impl Default for FieldsFormatter {
    /// The field formatter has no configuration.
    fn default() -> (r: Self) {
        FieldsFormatter {  }
    }
}

} // verus!
