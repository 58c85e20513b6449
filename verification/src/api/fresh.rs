//! Fresh values: the current time, and ids for new runs.
use vstd::prelude::*;

verus! {

/// The characters that a run id is made of.
pub open spec fn is_id_char(c: char) -> bool {
    c == '_' || ('0' <= c && c <= '9') || ('a' <= c && c <= 'z') || ('A' <= c && c <= 'Z')
}

/// A run id has 21 characters, each of them a letter, a digit or `_`.
pub open spec fn is_task_run_id(id: Seq<char>) -> bool {
    id.len() == 21 && forall|i: int| 0 <= i < id.len() ==> is_id_char(#[trigger] id[i])
}

/// `chrono::Utc::now().timestamp_millis()`: the wall-clock time in
/// milliseconds since the Unix epoch. Nothing is claimed of the value. The
/// call fails on a machine whose clock stands before 1970.
#[verifier::external_body]
pub(crate) fn now_millis() -> i64 {
    chrono::Utc::now().timestamp_millis()
}

/// `nanoid::format` with the default random source: `size` characters, each
/// drawn from `alphabet`. The function counts bytes, asks the random source
/// for bytes until enough of them select a character, and refuses an
/// alphabet of more than 255 characters; so the alphabet must be ASCII and
/// not empty, and the size positive.
#[verifier::external_body]
fn random_id(alphabet: &[char], size: usize) -> (id: String)
    requires
        0 < alphabet@.len() <= 255,
        forall|i: int| 0 <= i < alphabet@.len() ==> (#[trigger] alphabet@[i] as u32) < 0x80,
        0 < size <= 0xffff,
    ensures
        id@.len() == size,
        forall|i: int| 0 <= i < id@.len() ==> alphabet@.contains(#[trigger] id@[i]),
{
    nanoid::format(nanoid::rngs::default, alphabet, size)
}

/// A fresh random run id.
pub fn new_task_run_id() -> (id: String)
    ensures
        is_task_run_id(id@),
{
    let alphabet: [char; 63] = [
        '_',
        '0',
        '1',
        '2',
        '3',
        '4',
        '5',
        '6',
        '7',
        '8',
        '9',
        'a',
        'b',
        'c',
        'd',
        'e',
        'f',
        'g',
        'h',
        'i',
        'j',
        'k',
        'l',
        'm',
        'n',
        'o',
        'p',
        'q',
        'r',
        's',
        't',
        'u',
        'v',
        'w',
        'x',
        'y',
        'z',
        'A',
        'B',
        'C',
        'D',
        'E',
        'F',
        'G',
        'H',
        'I',
        'J',
        'K',
        'L',
        'M',
        'N',
        'O',
        'P',
        'Q',
        'R',
        'S',
        'T',
        'U',
        'V',
        'W',
        'X',
        'Y',
        'Z',
    ];
    assert(forall|i: int| 0 <= i < 63 ==> is_id_char(#[trigger] alphabet@[i]));
    assert(forall|i: int| 0 <= i < 63 ==> (#[trigger] alphabet@[i] as u32) < 0x80);
    let id = random_id(alphabet.as_slice(), 21);
    assert forall|i: int| 0 <= i < id@.len() implies is_id_char(#[trigger] id@[i]) by {
        assert(alphabet@.contains(id@[i]));
        let k = choose|k: int| 0 <= k < alphabet@.len() && alphabet@[k] == id@[i];
        assert(is_id_char(alphabet@[k]));
    }
    id
}

} // verus!
