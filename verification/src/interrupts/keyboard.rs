//! From scan codes to text.

use crate::text::push_char;
use vstd::prelude::*;

verus! {

/// A press or release of a key, as [`pc_keyboard`] tells it.
#[verifier::external_type_specification]
#[verifier::external_body]
pub struct ExKeyEvent(pc_keyboard::KeyEvent);

/// A byte that fits no scan code, as [`pc_keyboard`] tells it.
#[verifier::external_type_specification]
#[verifier::external_body]
pub struct ExScanError(pc_keyboard::Error);

/// A key that was decoded.
pub enum Key {
    /// It has a character.
    Character(char),
    /// It has none; this is its name.
    Named(String),
}

/// A decoder for scan codes of set 1 on a US keyboard with 104 keys, which passes letters on
/// as they are while a control key is held.
#[verifier::external_body]
pub struct Decoder {
    inner: pc_keyboard::Keyboard<pc_keyboard::layouts::Us104Key, pc_keyboard::ScancodeSet1>,
}

/// The bytes that a decoder was given so far.
pub uninterp spec fn bytes_given(d: Decoder) -> Seq<u8>;

/// The events that a decoder was given so far.
pub uninterp spec fn events_given(d: Decoder) -> Seq<pc_keyboard::KeyEvent>;

/// What the last of the bytes `bytes`, given one after the other, completes.
pub uninterp spec fn scanned(bytes: Seq<u8>) -> Result<
    Option<pc_keyboard::KeyEvent>,
    pc_keyboard::Error,
>;

/// What is shown for the key that the last of the events `events`, given one after the
/// other, decodes to.
pub uninterp spec fn decoded(events: Seq<pc_keyboard::KeyEvent>) -> Option<Seq<char>>;

/// A fresh decoder, from [`pc_keyboard::Keyboard::new`]. It was given nothing yet.
#[verifier::external_body]
fn fresh_decoder() -> (d: Decoder)
    ensures
        bytes_given(d) == Seq::<u8>::empty(),
        events_given(d) == Seq::<pc_keyboard::KeyEvent>::empty(),
{
    Decoder {
        inner: pc_keyboard::Keyboard::new(
            pc_keyboard::ScancodeSet1::new(),
            pc_keyboard::layouts::Us104Key,
            pc_keyboard::HandleControl::Ignore,
        ),
    }
}

/// Gives the decoder one more byte, by [`pc_keyboard::Keyboard::add_byte`]. The result rests
/// on the bytes given so far, this one among them, and on nothing else.
#[verifier::external_body]
fn add_byte(d: &mut Decoder, byte: u8) -> (r: Result<
    Option<pc_keyboard::KeyEvent>,
    pc_keyboard::Error,
>)
    ensures
        r == scanned(bytes_given(*old(d)).push(byte)),
        bytes_given(*final(d)) == bytes_given(*old(d)).push(byte),
        events_given(*final(d)) == events_given(*old(d)),
{
    d.inner.add_byte(byte)
}

/// Gives the decoder one more event, by [`pc_keyboard::Keyboard::process_keyevent`]. The
/// result rests on the events given so far, this one among them, and on nothing else. A key
/// without a character goes by its debug name.
#[verifier::external_body]
fn process_keyevent(d: &mut Decoder, event: pc_keyboard::KeyEvent) -> (r: Option<Key>)
    ensures
        match r {
            Some(key) => decoded(events_given(*old(d)).push(event)) == Some(shown(key)),
            None => decoded(events_given(*old(d)).push(event)) is None,
        },
        bytes_given(*final(d)) == bytes_given(*old(d)),
        events_given(*final(d)) == events_given(*old(d)).push(event),
{
    match d.inner.process_keyevent(event) {
        Some(pc_keyboard::DecodedKey::Unicode(c)) => Some(Key::Character(c)),
        Some(pc_keyboard::DecodedKey::RawKey(k)) => Some(Key::Named(format!("{:?}", k))),
        None => None,
    }
}

/// What is shown for a key.
pub open spec fn shown(key: Key) -> Seq<char> {
    match key {
        Key::Character(c) => seq![c],
        Key::Named(name) => name@,
    }
}

/// What to print for a key.
pub fn key_text(key: Key) -> (s: String)
    ensures
        s@ == shown(key),
        key matches Key::Character(c) ==> s@ == seq![c],
        key matches Key::Named(name) ==> s@ == name@,
{
    match key {
        Key::Character(c) => {
            let mut s: String = String::new();
            push_char(&mut s, c);
            assert(s@ =~= seq![c]);
            s
        },
        Key::Named(name) => name,
    }
}

/// What is shown once `byte` was given to a decoder that was given `bytes` and `events`.
pub open spec fn typed(
    bytes: Seq<u8>,
    events: Seq<pc_keyboard::KeyEvent>,
    byte: u8,
) -> Option<Seq<char>> {
    match scanned(bytes.push(byte)) {
        Ok(Some(event)) => decoded(events.push(event)),
        _ => None,
    }
}

/// The events given to a decoder once `byte` was: the byte may complete one more.
pub open spec fn events_after(
    bytes: Seq<u8>,
    events: Seq<pc_keyboard::KeyEvent>,
    byte: u8,
) -> Seq<pc_keyboard::KeyEvent> {
    match scanned(bytes.push(byte)) {
        Ok(Some(event)) => events.push(event),
        _ => events,
    }
}

impl Decoder {
    /// A fresh decoder.
    pub fn new() -> (d: Self)
        ensures
            bytes_given(d) == Seq::<u8>::empty(),
            events_given(d) == Seq::<pc_keyboard::KeyEvent>::empty(),
    {
        fresh_decoder()
    }

    /// Takes one byte from the keyboard; gives the text to print for it, if any. Bytes that
    /// fit no scan code print nothing.
    pub fn feed(&mut self, byte: u8) -> (r: Option<String>)
        ensures
            match r {
                Some(s) => typed(bytes_given(*old(self)), events_given(*old(self)), byte) == Some(
                    s@,
                ),
                None => typed(bytes_given(*old(self)), events_given(*old(self)), byte) is None,
            },
            bytes_given(*final(self)) == bytes_given(*old(self)).push(byte),
            events_given(*final(self)) == events_after(
                bytes_given(*old(self)),
                events_given(*old(self)),
                byte,
            ),
    {
        match add_byte(self, byte) {
            Ok(Some(event)) => {
                match process_keyevent(self, event) {
                    Some(key) => Some(key_text(key)),
                    None => None,
                }
            },
            _ => None,
        }
    }
}

/// A byte that completes no event types nothing and adds no event; one that completes an event
/// adds just that one, and what is typed is what all events so far decode to.
pub proof fn law_typed(bytes: Seq<u8>, events: Seq<pc_keyboard::KeyEvent>, byte: u8)
    ensures
        match scanned(bytes.push(byte)) {
            Ok(Some(event)) => {
                &&& events_after(bytes, events, byte) == events.push(event)
                &&& typed(bytes, events, byte) == decoded(events_after(bytes, events, byte))
            },
            Ok(None) => events_after(bytes, events, byte) == events && typed(bytes, events, byte)
                is None,
            Err(_) => events_after(bytes, events, byte) == events && typed(bytes, events, byte)
                is None,
        },
{
}

} // verus!
