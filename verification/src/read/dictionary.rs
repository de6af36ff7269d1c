//! The dictionary record of a file: schemas, tag names, and run configuration, one entry per
//! event.

use vstd::prelude::*;
use vstd::slice::{slice_subrange, slice_to_vec};
use crate::event::event::Event;
#[allow(unused_imports)]
use crate::event::event::{event_structures, found, StructView};
use crate::schema::dict::Dict;
#[allow(unused_imports)]
use crate::schema::dict::DictView;
#[allow(unused_imports)]
use crate::schema::json::schema_from_json;
#[allow(unused_imports)]
use crate::schema::text::schema_parsed;
use crate::schema::types::Schema;
#[allow(unused_imports)]
use crate::schema::types::SchemaView;
use crate::tag::TagRegistry;
#[allow(unused_imports)]
use crate::tag::tags_parsed;
use crate::text::{chars_of, same_text, text_of, trim_chars, utf8_text};
#[allow(unused_imports)]
use crate::text::trimmed;
use crate::wire::constants::{
    CONFIG_GROUP, CONFIG_KEY_ITEM, CONFIG_STRING_ITEM, DICT_GROUP, DICT_ITEM, DICT_JSON_ITEM,
    TAG_REGISTRY_ITEM,
};
use crate::wire::record::Record;

verus! {

/// What a dictionary record says.
#[verifier::ext_equal]
pub struct DictionaryView {
    pub dict: DictView,
    /// Tag names and their bits.
    pub tags: Seq<(Seq<char>, u32)>,
    /// Run configuration, in file order.
    pub config: Seq<(Seq<char>, Seq<char>)>,
}

/// How many bytes come before the first zero.
pub open spec fn text_len(s: Seq<u8>) -> nat
    decreases s.len(),
{
    if s.len() == 0 || s[0] == 0 {
        0
    } else {
        1 + text_len(s.drop_first())
    }
}

/// The text in the data of a structure: up to the first zero byte, and nothing where it is not
/// UTF-8.
pub open spec fn evio_text(data: Seq<u8>) -> Seq<char> {
    let b = data.subrange(0, text_len(data) as int);
    if vstd::utf8::valid_utf8(b) {
        vstd::utf8::decode_utf8(b)
    } else {
        Seq::empty()
    }
}

/// The schema that one event of a dictionary record declares. The text form comes first; the
/// JSON form is read only where there is no text form.
pub open spec fn schema_in(sts: Seq<StructView>) -> Option<SchemaView> {
    match found(sts, DICT_GROUP, DICT_ITEM) {
        Some(st) => schema_parsed(trimmed(evio_text(st.data))),
        None => match found(sts, DICT_GROUP, DICT_JSON_ITEM) {
            Some(st) => schema_from_json(trimmed(evio_text(st.data))),
            None => None,
        },
    }
}

/// The first entry with this key; the number of entries where there is none.
pub open spec fn key_index(config: Seq<(Seq<char>, Seq<char>)>, key: Seq<char>) -> nat
    decreases config.len(),
{
    if config.len() == 0 || config[0].0 == key {
        0
    } else {
        1 + key_index(config.drop_first(), key)
    }
}

/// The configuration with a value for a key. The last value given for a key stands.
pub open spec fn with_config(
    config: Seq<(Seq<char>, Seq<char>)>,
    key: Seq<char>,
    value: Seq<char>,
) -> Seq<(Seq<char>, Seq<char>)> {
    let i = key_index(config, key);
    if i < config.len() {
        config.update(i as int, (key, value))
    } else {
        config.push((key, value))
    }
}

impl DictionaryView {
    /// The dictionary record without entries.
    pub open spec fn none() -> DictionaryView {
        DictionaryView { dict: DictView::none(), tags: Seq::empty(), config: Seq::empty() }
    }

    /// The dictionary with what one event declares: a schema, the tag names, or one entry of
    /// the configuration.
    pub open spec fn with(self, event: Seq<u8>) -> DictionaryView {
        let sts = event_structures(event);
        match schema_in(sts) {
            Some(s) => if self.dict.has_name(s.name) || self.dict.schemas.len() < 65536 {
                DictionaryView { dict: self.dict.with(s), ..self }
            } else {
                self
            },
            None => match found(sts, DICT_GROUP, TAG_REGISTRY_ITEM) {
                Some(st) => {
                    let tags = tags_parsed(trimmed(evio_text(st.data)));
                    if tags.len() > 0 {
                        DictionaryView { tags, ..self }
                    } else {
                        self
                    }
                },
                None => match (
                    found(sts, CONFIG_GROUP, CONFIG_KEY_ITEM),
                    found(sts, CONFIG_GROUP, CONFIG_STRING_ITEM),
                ) {
                    (Some(k), Some(v)) => DictionaryView {
                        config: with_config(self.config, evio_text(k.data), evio_text(v.data)),
                        ..self
                    },
                    _ => self,
                },
            },
        }
    }

    /// What the first `n` events declare.
    pub open spec fn of(events: Seq<Seq<u8>>, n: nat) -> DictionaryView
        decreases n,
    {
        if n == 0 {
            DictionaryView::none()
        } else {
            DictionaryView::of(events, (n - 1) as nat).with(events[n - 1])
        }
    }
}

/// What configuration entries say.
pub open spec fn config_views(config: Seq<(String, String)>) -> Seq<(Seq<char>, Seq<char>)> {
    config.map_values(|e: (String, String)| (e.0@, e.1@))
}

/// The entries of a dictionary record.
#[derive(Debug)]
pub struct Dictionary {
    pub dict: Dict,
    pub tag_registry: TagRegistry,
    pub config: Vec<(String, String)>,
}

impl View for Dictionary {
    type V = DictionaryView;

    open spec fn view(&self) -> DictionaryView {
        DictionaryView {
            dict: self.dict@,
            tags: self.tag_registry@,
            config: config_views(self.config@),
        }
    }
}

/// Read the text in the data of a structure.
pub fn parse_evio_string(payload: &[u8]) -> (r: String)
    ensures
        r@ == evio_text(payload@),
{
    let mut end: usize = 0;
    assert(payload@.subrange(0, payload.len() as int) =~= payload@);
    while end < payload.len() && payload[end] != 0
        invariant
            end <= payload.len(),
            text_len(payload@) == end + text_len(payload@.subrange(end as int, payload.len() as int)),
        decreases payload.len() - end,
    {
        assert(payload@.subrange(end as int, payload.len() as int).drop_first()
            =~= payload@.subrange(end + 1, payload.len() as int));
        end = end + 1;
    }
    match utf8_text(slice_to_vec(slice_subrange(payload, 0, end))) {
        Some(s) => s,
        None => {
            let s = String::new();
            assert(s@ =~= Seq::<char>::empty());
            s
        },
    }
}

/// Read the text in the data of a structure, without the white space around it.
fn parse_trimmed(payload: &[u8]) -> (r: String)
    ensures
        r@ == trimmed(evio_text(payload@)),
{
    let chars = chars_of(parse_evio_string(payload).as_str());
    text_of(trim_chars(chars.as_slice()))
}

/// The schema that one event of a dictionary record declares.
pub fn parse_dict_schema(ev: &Event<'_>) -> (r: Option<Schema>)
    ensures
        match r {
            Some(s) => schema_in(event_structures(ev@)) == Some(s@),
            None => schema_in(event_structures(ev@)) is None,
        },
{
    if let Some((_, payload)) = ev.find(DICT_GROUP, DICT_ITEM) {
        return match Schema::parse_text(parse_trimmed(payload).as_str()) {
            Ok(s) => Some(s),
            Err(_) => None,
        };
    }
    if let Some((_, payload)) = ev.find(DICT_GROUP, DICT_JSON_ITEM) {
        return match Schema::parse_json(parse_trimmed(payload).as_str()) {
            Ok(s) => Some(s),
            Err(_) => None,
        };
    }
    None
}

/// Set the value of a key.
fn set_config(config: &mut Vec<(String, String)>, key: String, value: String)
    ensures
        config_views(final(config)@) == with_config(config_views(old(config)@), key@, value@),
{
    let ghost before = config_views(config@);
    let n: usize = config.len();
    let mut i: usize = 0;
    assert(before.subrange(0, before.len() as int) =~= before);
    while i < n && !same_text(config[i].0.as_str(), key.as_str())
        invariant
            i <= n,
            n == config.len(),
            before == config_views(config@),
            key_index(before, key@) == i + key_index(
                before.subrange(i as int, before.len() as int),
                key@,
            ),
        decreases n - i,
    {
        assert(before.subrange(i as int, before.len() as int).drop_first() =~= before.subrange(
            i + 1,
            before.len() as int,
        ));
        i = i + 1;
    }
    let ghost entry = (key@, value@);
    if i < n {
        assert(before.subrange(i as int, before.len() as int)[0].0 == key@);
        config.set(i, (key, value));
        assert(config_views(config@) =~= before.update(i as int, entry));
    } else {
        config.push((key, value));
        assert(config_views(config@) =~= before.push(entry));
    }
}

impl Dictionary {
    /// The dictionary record without entries.
    pub fn new() -> (r: Self)
        ensures
            r@ == DictionaryView::none(),
    {
        let r = Dictionary {
            dict: Dict::new(),
            tag_registry: TagRegistry::new(),
            config: Vec::new(),
        };
        assert(r@ =~= DictionaryView::none());
        r
    }

    /// Add what one event declares. There is no room for more schemas than 16-bit ids can
    /// number; replacing one by name always has room.
    pub fn add_event(&mut self, event: &[u8])
        ensures
            final(self)@ == old(self)@.with(event@),
    {
        let ev = Event::new(event);
        if let Some(schema) = parse_dict_schema(&ev) {
            let known = self.dict.get(schema.name()).is_some();
            if known || self.dict.len() < 65536 {
                self.dict.add(schema);
            }
        } else if let Some((_, payload)) = ev.find(DICT_GROUP, TAG_REGISTRY_ITEM) {
            let parsed = TagRegistry::parse_text(parse_trimmed(payload).as_str());
            if !parsed.is_empty() {
                self.tag_registry = parsed;
            }
        } else if let Some((_, key)) = ev.find(CONFIG_GROUP, CONFIG_KEY_ITEM) {
            if let Some((_, value)) = ev.find(CONFIG_GROUP, CONFIG_STRING_ITEM) {
                set_config(&mut self.config, parse_evio_string(key), parse_evio_string(value));
            }
        }
        assert(self@ =~= old(self)@.with(event@));
    }

    /// Read a dictionary record.
    pub fn of_record(record: &Record) -> (r: Self)
        ensures
            r@ == DictionaryView::of(record@.events(), record@.header.event_count as nat),
    {
        let mut d = Dictionary::new();
        let n: u32 = record.event_count();
        let mut i: u32 = 0;
        while i < n
            invariant
                i <= n,
                n == record@.header.event_count,
                d@ == DictionaryView::of(record@.events(), i as nat),
            decreases n - i,
        {
            if let Some(ev) = record.event(i) {
                assert(ev@ == record@.events()[i as int]);
                d.add_event(ev);
            }
            i = i + 1;
        }
        d
    }
}

} // verus!
