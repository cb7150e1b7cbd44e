//! Building a snapshot file by file: each file's digest, its text, and what
//! the radar reads from it (a parsed module, or a configuration file).
use vstd::prelude::*;
use vstd::string::StringSliceAdditionalSpecFns;
use vstd::utf8::{decode_utf8, valid_utf8};
use crate::file_tree::strictly_sorted;
use crate::keyed::{add_key, add_key_keeps_order, add_name, keys, put, put_entry, put_keeps_order};
use crate::paths::{extension, extension_of};
use crate::radar::{is_source_extension, source_extension};
use crate::radar_parse::{grammar_for, module_from, parse_module, Module};
use crate::syntax::parsed_from;
use crate::jsonc::{config_value, json_config};
use crate::resolve::JsonValue;
use crate::resolver::{entries, table_keys, Snapshot};
use crate::semantic::{digest_bytes, hex, sha256_of};
use crate::file_tree::lex_less;

verus! {

/// `std::str::from_utf8`: the bytes read as text when they are valid UTF-8
/// (and only then), the text having exactly these bytes.
#[verifier::external_body]
fn utf8_text(bytes: &[u8]) -> (r: Option<&str>)
    ensures
        r is Some <==> valid_utf8(bytes@),
        r matches Some(s) ==> s.spec_bytes() == bytes@,
{
    std::str::from_utf8(bytes).ok()
}

proof fn lemma_put_skip_entries<V>(s: Seq<(Seq<char>, V)>, k: Seq<char>, v: V, i: int)
    requires
        0 <= i <= s.len(),
        forall|j: int| 0 <= j < i ==> s[j].0 != k && !lex_less(k, #[trigger] s[j].0),
    ensures
        put(s, k, v) == s.take(i) + put(s.skip(i), k, v),
    decreases i,
{
    if i == 0 {
        assert(s.skip(0) =~= s);
        assert(s.take(0) + put(s.skip(0), k, v) =~= put(s, k, v));
    } else {
        assert(s[0].0 != k && !lex_less(k, s[0].0));
        lemma_put_skip_entries(s.drop_first(), k, v, i - 1);
        assert(s.drop_first().skip(i - 1) =~= s.skip(i));
        assert(seq![s[0]] + s.drop_first().take(i - 1) =~= s.take(i));
        assert(seq![s[0]] + (s.drop_first().take(i - 1) + put(s.skip(i), k, v)) =~= s.take(i) + put(s.skip(i), k, v));
    }
}

/// Maps `k` to `v` in a table of values without a plain-value view.
fn put_value<V>(table: &mut Vec<(String, V)>, k: String, v: V)
    ensures
        entries(final(table)@) == put(entries(old(table)@), k@, v),
{
    let ghost s = entries(old(table)@);
    let ghost kv = k@;
    let mut i: usize = 0;
    while i < table.len() && table[i].0 != k && !crate::keyed::key_before(k.as_str(), table[i].0.as_str())
        invariant
            i <= table@.len(),
            table@ == old(table)@,
            s == entries(table@),
            kv == k@,
            forall|j: int| 0 <= j < i ==> s[j].0 != kv && !lex_less(kv, #[trigger] s[j].0),
        decreases table@.len() - i,
    {
        assert(s[i as int].0 == table@[i as int].0@);
        i = i + 1;
    }
    proof {
        lemma_put_skip_entries(s, kv, v, i as int);
    }
    let ghost rest = s.skip(i as int);
    if i < table.len() {
        assert(s[i as int] == (table@[i as int].0@, table@[i as int].1));
        assert(rest[0] == s[i as int]);
    }
    if i < table.len() && table[i].0 == k {
        table.set(i, (k, v));
        assert(rest.drop_first() =~= s.skip(i + 1));
        assert(entries(table@) =~= s.take(i as int) + (seq![(kv, v)] + s.skip(i + 1)));
    } else {
        table.insert(i, (k, v));
        assert(entries(table@) =~= s.take(i as int) + (seq![(kv, v)] + rest));
    }
}

/// A configuration file the radar reads as JSON.
pub open spec fn json_path(path: Seq<char>) -> bool {
    ".json"@.is_suffix_of(path) || ".jsonc"@.is_suffix_of(path)
}

/// A TypeScript or JavaScript source the radar parses.
pub open spec fn script_path(path: Seq<char>) -> bool {
    match extension(path) {
        Some(e) => source_extension(e),
        None => false,
    }
}

/// The JSON value that a file contributes as configuration: for a
/// configuration file of UTF-8 text, the value of its text (see
/// [`config_value`]); nothing otherwise.
pub open spec fn file_config(path: Seq<char>, bytes: Seq<u8>) -> Option<JsonValue> {
    if json_path(path) && valid_utf8(bytes) {
        config_value(bytes)
    } else {
        None
    }
}

/// `new` is `old` with the file `path` of bytes `bytes` read in, `config`
/// being the JSON value of its text when it is a configuration file: the
/// digest of its bytes is recorded; a file that is not UTF-8 is skipped;
/// otherwise its text is recorded, and a configuration file is recorded as
/// its value (skipped when it has none), a source is parsed into a module
/// (skipped when parsing fails), any other file is recorded as text only.
pub open spec fn inserted(old: Snapshot, new: Snapshot, path: Seq<char>, bytes: Seq<u8>, config: Option<JsonValue>) -> bool {
    &&& new.hashes.deep_view() == put(old.hashes.deep_view(), path, hex(sha256_of(bytes)))
    &&& if !valid_utf8(bytes) {
        &&& new.sources@ == old.sources@
        &&& new.modules@ == old.modules@
        &&& new.metadata@ == old.metadata@
        &&& new.skipped.deep_view() == add_key(old.skipped.deep_view(), path)
    } else {
        &&& new.sources.deep_view() == put(old.sources.deep_view(), path, decode_utf8(bytes))
        &&& if json_path(path) {
            &&& new.modules@ == old.modules@
            &&& match config {
                Some(v) => entries(new.metadata@) == put(entries(old.metadata@), path, v) && new.skipped@ == old.skipped@,
                None => new.metadata@ == old.metadata@ && new.skipped.deep_view() == add_key(old.skipped.deep_view(), path),
            }
        } else if !script_path(path) {
            &&& new.modules@ == old.modules@
            &&& new.metadata@ == old.metadata@
            &&& new.skipped@ == old.skipped@
        } else {
            &&& new.metadata@ == old.metadata@
            &&& exists|m: Module, parsed: Option<Seq<crate::syntax::SyntaxNode>>|
                #![trigger module_from(bytes, parsed), put(entries(old.modules@), path, m)]
                m.deep_view() == module_from(bytes, parsed)
                    && parsed_from(parsed, decode_utf8(bytes), grammar_for(path))
                    && entries(new.modules@) == put(entries(old.modules@), path, m)
                    && new.skipped.deep_view() == if m.parse_error {
                    add_key(old.skipped.deep_view(), path)
                } else {
                    old.skipped.deep_view()
                }
        }
    }
}

proof fn lemma_deep_keys(v: &Vec<(String, String)>)
    ensures
        keys(v.deep_view()) == table_keys(v@),
{
    assert(keys(v.deep_view()) =~= table_keys(v@));
}

impl Snapshot {
    /// A snapshot with no files.
    pub fn new() -> (s: Snapshot)
        ensures
            s.wf(),
            s.sources@.len() == 0,
            s.hashes@.len() == 0,
            s.modules@.len() == 0,
            s.metadata@.len() == 0,
            s.skipped@.len() == 0,
    {
        let s = Snapshot { sources: Vec::new(), hashes: Vec::new(), modules: Vec::new(), metadata: Vec::new(), skipped: Vec::new() };
        assert(table_keys(s.sources@) =~= Seq::<Seq<char>>::empty());
        assert(table_keys(s.hashes@) =~= Seq::<Seq<char>>::empty());
        assert(table_keys(s.modules@) =~= Seq::<Seq<char>>::empty());
        assert(table_keys(s.metadata@) =~= Seq::<Seq<char>>::empty());
        assert(s.skipped.deep_view() =~= Seq::<Seq<char>>::empty());
        s
    }

    /// Records `path` as a file that could not be read.
    pub fn mark_skipped(&mut self, path: &str)
        requires
            old(self).wf(),
        ensures
            final(self).wf(),
            final(self).skipped.deep_view() == add_key(old(self).skipped.deep_view(), path@),
            final(self).sources@ == old(self).sources@,
            final(self).hashes@ == old(self).hashes@,
            final(self).modules@ == old(self).modules@,
            final(self).metadata@ == old(self).metadata@,
    {
        proof {
            add_key_keeps_order(self.skipped.deep_view(), path@);
        }
        add_name(&mut self.skipped, path.to_owned());
    }

    /// Whether the text of `path` is recorded.
    pub fn has_source(&self, path: &str) -> (b: bool)
        ensures
            b == table_keys(self.sources@).contains(path@),
    {
        let mut i: usize = 0;
        while i < self.sources.len()
            invariant
                i <= self.sources@.len(),
                forall|k: int| 0 <= k < i ==> table_keys(self.sources@)[k] != path@,
            decreases self.sources@.len() - i,
        {
            if crate::resolve::str_is(self.sources[i].0.as_str(), path) {
                assert(table_keys(self.sources@)[i as int] == path@);
                return true;
            }
            i = i + 1;
        }
        false
    }

    /// Reads the file `path` with bytes `bytes` into the snapshot; `config`
    /// is the JSON value of its text where it is a configuration file (see
    /// [`inserted`]).
    pub fn insert(&mut self, path: &str, bytes: &[u8], config: Option<JsonValue>)
        requires
            old(self).wf(),
        ensures
            final(self).wf(),
            inserted(*old(self), *final(self), path@, bytes@, config),
    {
        let ghost before = *self;
        proof {
            lemma_deep_keys(&self.hashes);
            lemma_deep_keys(&self.sources);
            put_keeps_order(self.hashes.deep_view(), path@, hex(sha256_of(bytes@)));
        }
        put_entry(&mut self.hashes, path.to_owned(), digest_bytes(bytes));
        proof {
            lemma_deep_keys(&self.hashes);
        }
        let text = match utf8_text(bytes) {
            Some(t) => t,
            None => {
                proof {
                    add_key_keeps_order(self.skipped.deep_view(), path@);
                }
                add_name(&mut self.skipped, path.to_owned());
                return;
            },
        };
        proof {
            vstd::utf8::encode_utf8_decode_utf8(text@);
            put_keeps_order(self.sources.deep_view(), path@, text@);
        }
        put_entry(&mut self.sources, path.to_owned(), text.to_owned());
        proof {
            lemma_deep_keys(&self.sources);
        }
        let cs = crate::text::chars_of(path);
        if crate::radar::ends_with_text(&cs, ".json") || crate::radar::ends_with_text(&cs, ".jsonc") {
            match config {
                Some(v) => {
                    proof {
                        assert(keys(entries(self.metadata@)) =~= table_keys(self.metadata@));
                        put_keeps_order(entries(self.metadata@), path@, v);
                    }
                    put_value(&mut self.metadata, path.to_owned(), v);
                    assert(keys(entries(self.metadata@)) =~= table_keys(self.metadata@));
                },
                None => {
                    proof {
                        add_key_keeps_order(self.skipped.deep_view(), path@);
                    }
                    add_name(&mut self.skipped, path.to_owned());
                },
            }
            return;
        }
        let script = match extension_of(path) {
            Some(e) => is_source_extension(&e),
            None => false,
        };
        if !script {
            return;
        }
        let m = parse_module(path, text);
        proof {
            assert(text.spec_bytes() == bytes@);
            assert(decode_utf8(bytes@) == text@);
        }
        if m.parse_error {
            proof {
                add_key_keeps_order(self.skipped.deep_view(), path@);
            }
            add_name(&mut self.skipped, path.to_owned());
        }
        let ghost mv = m;
        proof {
            assert(keys(entries(self.modules@)) =~= table_keys(self.modules@));
            put_keeps_order(entries(self.modules@), path@, m);
        }
        put_value(&mut self.modules, path.to_owned(), m);
        assert(keys(entries(self.modules@)) =~= table_keys(self.modules@));
    }

    /// Reads the file `path` with bytes `bytes` into the snapshot, a
    /// configuration file together with the JSON value of its text.
    pub fn insert_file(&mut self, path: &str, bytes: &[u8])
        requires
            old(self).wf(),
        ensures
            final(self).wf(),
            inserted(*old(self), *final(self), path@, bytes@, file_config(path@, bytes@)),
    {
        let cs = crate::text::chars_of(path);
        let config = if crate::radar::ends_with_text(&cs, ".json") || crate::radar::ends_with_text(&cs, ".jsonc") {
            match utf8_text(bytes) {
                Some(text) => json_config(text),
                None => None,
            }
        } else {
            None
        };
        self.insert(path, bytes, config);
    }
}

} // verus!
