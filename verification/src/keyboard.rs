use vstd::prelude::*;
use pc_keyboard::layouts::De105Key;
use pc_keyboard::{DecodedKey, Error, HandleControl, KeyCode, KeyEvent, Keyboard, ScancodeSet1};

verus! {

// Types of the `pc_keyboard` crate, carried through opaquely.
#[verifier::external_type_specification]
#[verifier::external_body]
pub struct ExKeyEvent(KeyEvent);

#[verifier::external_type_specification]
#[verifier::external_body]
pub struct ExKeyCode(KeyCode);

#[verifier::external_type_specification]
#[verifier::external_body]
pub struct ExKeyboardError(Error);

/// The `pc_keyboard` decoder of the kernel's keyboard: German 105-key layout, scancode
/// set 1, letters mapped to Unicode under Ctrl. Its state (the scancode sequence under
/// way and the modifier keys) is held here opaquely.
#[verifier::external_body]
pub struct KeyboardDecoder {
    kb: Keyboard<De105Key, ScancodeSet1>,
}

/// The kernel's keyboard: the decoder, the scancode bytes it has been fed since it was
/// made, and whether the last byte completed a key event that has not yet been decoded.
pub struct KernelKeyboard {
    decoder: KeyboardDecoder,
    fed: Ghost<Seq<u8>>,
    event_waiting: Ghost<bool>,
}

impl View for KernelKeyboard {
    type V = Seq<u8>;

    /// The bytes fed to the keyboard so far.
    closed spec fn view(&self) -> Seq<u8> {
        self.fed@
    }
}

impl KernelKeyboard {
    /// Every key event the decoder completed has been decoded.
    pub closed spec fn settled(&self) -> bool {
        !self.event_waiting@
    }

    /// A key event completed by the last byte fed still waits to be decoded.
    pub closed spec fn waiting(&self) -> bool {
        self.event_waiting@
    }
}

/// A decoded key: a character, or a key without one (function keys, arrows, ...).
pub enum Key {
    Unicode(char),
    RawKey(KeyCode),
}

/// What `Keyboard::add_byte` returns for `byte` from a fresh decoder (as `KernelKeyboard::new`
/// makes it) that has been fed `fed`, each completed key event having been processed.
pub uninterp spec fn add_byte_result(fed: Seq<u8>, byte: u8) -> Result<Option<KeyEvent>, Error>;

/// What `Keyboard::process_keyevent` returns for the key event that the last byte of `fed`
/// completed, from a fresh decoder that has been fed `fed`, each earlier completed key
/// event having been processed.
pub uninterp spec fn key_decoded(fed: Seq<u8>) -> Option<Key>;

/// The character a decoded key gives: a character key its character, any other key
/// none.
pub open spec fn key_char_spec(key: Option<Key>) -> Option<char> {
    match key {
        Some(Key::Unicode(c)) => Some(c),
        _ => None,
    }
}

/// The character that scancode `byte` gives after the bytes `fed`: none where the byte
/// is refused or completes no key event (a prefix, say), else the character of the key
/// that the completed event decodes to (none for a key release or a key without one).
pub open spec fn scancode_char(fed: Seq<u8>, byte: u8) -> Option<char> {
    match add_byte_result(fed, byte) {
        Ok(Some(_)) => key_char_spec(key_decoded(fed.push(byte))),
        _ => None,
    }
}

/// A character key gives its own character, whatever the character; a key without
/// one, or no key, gives none. So a scancode that completes the press of a character
/// key gives that character.
pub proof fn lemma_character_keys_give_their_character(c: char, k: KeyCode, fed: Seq<u8>, byte: u8)
    ensures
        key_char_spec(Some(Key::Unicode(c))) == Some(c),
        key_char_spec(Some(Key::RawKey(k))) == None::<char>,
        key_char_spec(None) == None::<char>,
        add_byte_result(fed, byte) is Ok && add_byte_result(fed, byte)->Ok_0 is Some && key_decoded(fed.push(byte))
            == Some(Key::Unicode(c)) ==> scancode_char(fed, byte) == Some(c),
        !(add_byte_result(fed, byte) is Ok && add_byte_result(fed, byte)->Ok_0 is Some) ==> scancode_char(fed, byte)
            == None::<char>,
{
}

/// Calls `Keyboard::new` with scancode set 1, the German 105-key layout and
/// `HandleControl::MapLettersToUnicode`.
#[verifier::external_body]
fn new_decoder() -> (d: KeyboardDecoder) {
    KeyboardDecoder { kb: Keyboard::new(ScancodeSet1::new(), De105Key, HandleControl::MapLettersToUnicode) }
}

/// Calls `Keyboard::add_byte`, which feeds one scancode byte to the scancode decoder.
/// Where every event completed so far has been decoded, the result is the one named
/// `add_byte_result` for the bytes fed before; the byte is added to the record, and an
/// event is marked as waiting exactly when the byte completed one.
#[verifier::external_body]
fn keyboard_add_byte(kb: &mut KernelKeyboard, byte: u8) -> (r: Result<Option<KeyEvent>, Error>)
    requires
        old(kb).settled(),
    ensures
        r == add_byte_result(old(kb)@, byte),
        final(kb)@ == old(kb)@.push(byte),
        final(kb).waiting() == (r matches Ok(Some(_))),
{
    kb.decoder.kb.add_byte(byte)
}

/// Calls `Keyboard::process_keyevent` on the key event that the last byte fed
/// completed, which turns it into a decoded key under the layout and the modifier state,
/// and hands the decoded key out as a `Key`, variant for variant: states that the
/// result is the one named `key_decoded` for the bytes fed, and the event no longer
/// waits. The record of bytes fed is left as it is.
#[verifier::external_body]
fn keyboard_process_keyevent(kb: &mut KernelKeyboard, ev: KeyEvent) -> (r: Option<Key>)
    requires
        old(kb).waiting(),
        old(kb)@.len() > 0,
        add_byte_result(old(kb)@.drop_last(), old(kb)@.last()) == Ok::<Option<KeyEvent>, Error>(Some(ev)),
    ensures
        r == key_decoded(old(kb)@),
        final(kb)@ == old(kb)@,
        final(kb).settled(),
{
    match kb.decoder.kb.process_keyevent(ev) {
        Some(DecodedKey::Unicode(c)) => Some(Key::Unicode(c)),
        Some(DecodedKey::RawKey(k)) => Some(Key::RawKey(k)),
        None => None,
    }
}

impl KernelKeyboard {
    /// A keyboard in its starting state, fed nothing yet.
    pub fn new() -> (kb: KernelKeyboard)
        ensures
            kb@ == Seq::<u8>::empty(),
            kb.settled(),
    {
        KernelKeyboard { decoder: new_decoder(), fed: Ghost(Seq::empty()), event_waiting: Ghost(false) }
    }
}

/// The printable character a decoded key gives, if any: a character key gives its
/// character; a key without one, or no key at all, gives none.
pub fn key_char(key: Option<Key>) -> (c: Option<char>)
    ensures
        c == key_char_spec(key),
{
    match key {
        Some(Key::Unicode(ch)) => Some(ch),
        Some(Key::RawKey(_)) => None,
        None => None,
    }
}

/// Processes a raw scancode from the PS/2 controller: returns the character it completes,
/// if any. A byte that completes no key event, or a malformed sequence, gives none.
pub fn process_scancode(kb: &mut KernelKeyboard, scancode: u8) -> (r: Option<char>)
    requires
        old(kb).settled(),
    ensures
        r == scancode_char(old(kb)@, scancode),
        final(kb)@ == old(kb)@.push(scancode),
        final(kb).settled(),
{
    let res = keyboard_add_byte(kb, scancode);
    proof {
        assert(kb@.drop_last() =~= old(kb)@);
    }
    match res {
        Ok(Some(key_event)) => {
            let key = keyboard_process_keyevent(kb, key_event);
            key_char(key)
        },
        Ok(None) => None,
        Err(_) => None,
    }
}

} // verus!
