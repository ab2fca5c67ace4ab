//! The progress cookie of the radio quests: one ASCII digit of progress per questline.
use std::convert::Infallible;
use std::str::FromStr;
use vstd::prelude::*;
use vstd::string::*;
use vstd::utf8::valid_utf8;

use crate::text::{anchored, lemma_anchored_boundary, lemma_str_valid, slice};

verus! {

/// The number of questlines a cookie tracks.
pub const QUESTLINES: usize = 32;

/// The progress of a questline that has not started.
pub const NO_PROGRESS: u8 = 0x30;

/// The progress character that marks the first quest's door as opened.
pub const DOOR_OPENED: u8 = 0x31;

/// The questline of the first quest.
pub const Q000_SAVING_VICK: usize = 0;

/// Progress through each questline, as an ASCII digit.
pub struct ProgressCookie {
    questlines: [u8; 32],
}

/// A progress character is an ASCII digit.
pub open spec fn is_progress_char(c: u8) -> bool {
    0x30 <= c <= 0x39
}

/// The cookie that a cookie value describes: the first (at most 32) bytes give the
/// questlines' progress; bytes that are not digits leave their questline at no progress.
pub open spec fn progress_of(s: Seq<u8>) -> Seq<u8> {
    Seq::new(32, |i: int| if i < s.len() && is_progress_char(s[i]) { s[i] } else { NO_PROGRESS })
}

impl ProgressCookie {
    pub closed spec fn view(&self) -> Seq<u8> {
        self.questlines@
    }

    /// A cookie holds the progress of every questline, one each.
    pub proof fn lemma_view_len(&self)
        ensures
            self.view().len() == QUESTLINES,
    {
    }

    #[verifier::type_invariant]
    spec fn inv(&self) -> bool {
        forall|i: int| 0 <= i < 32 ==> is_progress_char(#[trigger] self.questlines@[i])
    }

    /// A cookie with no progress in any questline.
    pub fn new() -> (cookie: Self)
        ensures
            cookie.view() == Seq::new(32, |i: int| NO_PROGRESS),
    {
        let cookie = Self { questlines: [NO_PROGRESS; 32] };
        assert(cookie.questlines@ =~= Seq::new(32, |i: int| NO_PROGRESS));
        cookie
    }

    fn is_valid_progress_character(character: u8) -> (r: bool)
        ensures
            r == is_progress_char(character),
    {
        0x30 <= character && character <= 0x39
    }

    /// Records `progress` for `questline`.
    pub fn set(&mut self, questline: usize, progress: u8)
        requires
            questline < QUESTLINES,
            is_progress_char(progress),
        ensures
            final(self).view() == old(self).view().update(questline as int, progress),
            final(self).view().len() == QUESTLINES,
    {
        proof {
            use_type_invariant(&*self);
        }
        let mut questlines = self.questlines;
        questlines.set(questline, progress);
        assert forall|i: int| 0 <= i < 32 implies is_progress_char(#[trigger] questlines@[i]) by {
            if i != questline {
                assert(questlines@[i] == self.questlines@[i]);
            }
        }
        self.questlines = questlines;
    }

    /// What `get` reads after `set` recorded `progress` for questline `q`: that progress for
    /// `q`, and for every other questline what it read before.
    pub proof fn law_get_after_set(before: Self, after: Self, q: usize, progress: u8, j: usize)
        requires
            q < QUESTLINES,
            j < QUESTLINES,
            after.view() == before.view().update(q as int, progress),
        ensures
            after.view()[j as int] == if j == q {
                progress
            } else {
                before.view()[j as int]
            },
    {
    }

    /// The progress of `questline`.
    pub fn get(&self, questline: usize) -> (progress: u8)
        requires
            questline < QUESTLINES,
        ensures
            self.view().len() == QUESTLINES,
            progress == self.view()[questline as int],
            is_progress_char(progress),
    {
        proof {
            use_type_invariant(self);
        }
        self.questlines[questline]
    }

    /// The cookie described by the bytes of a cookie value.
    pub fn from_progress_bytes(s: &[u8]) -> (cookie: Self)
        ensures
            cookie.view() == progress_of(s@),
    {
        let mut cookie = ProgressCookie::new();
        let n = if s.len() < QUESTLINES { s.len() } else { QUESTLINES };
        let mut i: usize = 0;
        while i < n
            invariant
                i <= n,
                n <= 32,
                n <= s@.len(),
                n == (if s@.len() < 32 { s@.len() } else { 32 }),
                cookie.view() =~= Seq::new(32, |j: int| if j < i && is_progress_char(s@[j]) { s@[j] } else { NO_PROGRESS }),
            decreases n - i,
        {
            let b = s[i];
            if Self::is_valid_progress_character(b) {
                cookie.set(i, b);
            }
            i = i + 1;
        }
        assert(cookie.view() =~= progress_of(s@));
        cookie
    }

    /// The `Set-Cookie` header value that stores a progress cookie. It names the cookie, keeps
    /// it for 400 days and scopes it to the whole site; its value is left empty.
    pub fn to_header_value(&self) -> (value: String)
        ensures
            value@ == "progress=; Max-Age=34560000; Path=/; SameSite=Lax"@,
    {
        let mut s = String::new();
        s.push_str("progress=");
        s.push_str("; Max-Age=34560000; Path=/; SameSite=Lax");
        proof {
            reveal_strlit("progress=");
            reveal_strlit("; Max-Age=34560000; Path=/; SameSite=Lax");
            reveal_strlit("progress=; Max-Age=34560000; Path=/; SameSite=Lax");
        }
        assert(s@ =~= "progress=; Max-Age=34560000; Path=/; SameSite=Lax"@);
        s
    }
}

impl FromStr for ProgressCookie {
    // Invalid characters are ignored, so parsing never fails.
    type Err = Infallible;

    /// The cookie described by the bytes of the cookie value `s`.
    fn from_str(s: &str) -> (r: Result<Self, Self::Err>)
        ensures
            r matches Ok(cookie) && cookie.view() == progress_of(s.spec_bytes()),
    {
        Ok(ProgressCookie::from_progress_bytes(s.as_bytes()))
    }
}

/// `std::str::from_utf8(bytes).is_ok()`: the bytes are valid UTF-8.
#[verifier::external_body]
fn is_utf8(bytes: &[u8]) -> (r: bool)
    ensures
        r == valid_utf8(bytes@),
{
    std::str::from_utf8(bytes).is_ok()
}

/// The bytes of `"progress="`.
pub open spec fn progress_prefix() -> Seq<u8> {
    seq![0x70u8, 0x72, 0x6f, 0x67, 0x72, 0x65, 0x73, 0x73, 0x3d]
}

/// The cookie that a `Cookie` header carries: the first `;`-separated piece that is valid
/// UTF-8 and starts with `progress=` (with no space before it) gives the progress.
pub open spec fn cookie_in_header(header: Seq<u8>, start: int) -> Option<Seq<u8>>
    decreases header.len() - start,
{
    if start < 0 || start > header.len() {
        None
    } else {
        proof {
            lemma_piece_end(header, start);
        }
        let end = piece_end(header, start);
        let piece = header.subrange(start, end);
        if valid_utf8(piece) && piece.len() >= 9 && piece.subrange(0, 9) == progress_prefix() {
            Some(piece.subrange(9, piece.len() as int))
        } else if end < header.len() {
            cookie_in_header(header, end + 1)
        } else {
            None
        }
    }
}

/// Where the `;`-separated piece that starts at `start` ends.
pub open spec fn piece_end(header: Seq<u8>, start: int) -> int
    decreases header.len() - start,
{
    if start < 0 || start >= header.len() || header[start] == 0x3b {
        if start < 0 { 0 } else { start }
    } else {
        piece_end(header, start + 1)
    }
}

pub proof fn lemma_piece_end(header: Seq<u8>, start: int)
    requires
        0 <= start <= header.len(),
    ensures
        start <= piece_end(header, start) <= header.len(),
        piece_end(header, start) < header.len() ==> header[piece_end(header, start)] == 0x3b,
    decreases header.len() - start,
{
    if start < header.len() && header[start] != 0x3b {
        lemma_piece_end(header, start + 1);
    }
}

/// The progress cookie in the value of a `Cookie` header, if it has one.
pub fn progress_from_cookie_header(header: &[u8]) -> (cookie: Option<ProgressCookie>)
    ensures
        match cookie_in_header(header@, 0) {
            Some(value) => cookie matches Some(c) && c.view() == progress_of(value),
            None => cookie is None,
        },
{
    let prefix: [u8; 9] = [0x70, 0x72, 0x6f, 0x67, 0x72, 0x65, 0x73, 0x73, 0x3d];
    assert(prefix@ =~= progress_prefix());
    let mut start: usize = 0;
    loop
        invariant
            start <= header@.len(),
            prefix@ == progress_prefix(),
            cookie_in_header(header@, start as int) == cookie_in_header(header@, 0),
        decreases header@.len() - start,
    {
        proof {
            lemma_piece_end(header@, start as int);
        }
        let mut end = start;
        while end < header.len() && header[end] != 0x3b
            invariant
                start <= end <= header@.len(),
                piece_end(header@, end as int) == piece_end(header@, start as int),
            decreases header@.len() - end,
        {
            end = end + 1;
        }
        let piece = slice_bytes(header, start, end);
        if is_utf8(piece) && piece.len() >= 9 && starts_with(piece, &prefix) {
            let rest = slice_bytes(piece, 9, piece.len());
            return Some(ProgressCookie::from_progress_bytes(rest));
        }
        if end >= header.len() {
            return None;
        }
        start = end + 1;
    }
}

fn starts_with(s: &[u8], prefix: &[u8; 9]) -> (r: bool)
    requires
        s@.len() >= 9,
    ensures
        r == (s@.subrange(0, 9) == prefix@),
{
    let mut i: usize = 0;
    while i < 9
        invariant
            i <= 9,
            s@.len() >= 9,
            forall|j: int| 0 <= j < i ==> s@[j] == prefix@[j],
        decreases 9 - i,
    {
        if s[i] != prefix[i] {
            assert(s@.subrange(0, 9)[i as int] != prefix@[i as int]);
            return false;
        }
        i = i + 1;
    }
    assert(s@.subrange(0, 9) =~= prefix@);
    true
}

/// The bytes `start..end` of `s`.
pub fn slice_bytes(s: &[u8], start: usize, end: usize) -> (r: &[u8])
    requires
        start <= end <= s@.len(),
    ensures
        r@ == s@.subrange(start as int, end as int),
{
    vstd::slice::slice_subrange(s, start, end)
}

/// What the door of the first quest shows: `open` once it has been opened.
pub fn door_status(progress: &ProgressCookie) -> (status: &'static str)
    ensures
        status@ == (if progress.view()[Q000_SAVING_VICK as int] >= DOOR_OPENED {
            "open"@
        } else {
            "closed"@
        }),
{
    if progress.get(Q000_SAVING_VICK) >= DOOR_OPENED {
        "open"
    } else {
        "closed"
    }
}

/// The answer to a door command: an HTTP status, the progress cookie to store (if any), and
/// the text of the reply.
pub struct DoorResponse {
    pub status: u16,
    pub set_cookie: Option<String>,
    pub body: &'static str,
}

/// The position of the first space in `s`, if there is one.
pub open spec fn first_space(s: Seq<u8>) -> Option<int> {
    if exists|i: int| 0 <= i < s.len() && s[i] == 0x20 {
        Some(choose|i: int| 0 <= i < s.len() && s[i] == 0x20 && forall|j: int| 0 <= j < i ==> s[j] != 0x20)
    } else {
        None
    }
}

/// What a door command does, once the key has been checked: `open` opens a closed door,
/// `close` finds an open door stuck.
pub open spec fn door_outcome(command: Seq<u8>, key_valid: bool, opened: bool) -> (u16, bool, Seq<char>) {
    if !key_valid {
        (403, false, "error: invalid key. please request an Alpha Key via /treehouse/protocol/key-alpha/v1"@)
    } else if command == seq![0x6fu8, 0x70, 0x65, 0x6e] {
        if opened {
            (403, false, "error: door already open"@)
        } else {
            (200, true, "ok"@)
        }
    } else if command == seq![0x63u8, 0x6c, 0x6f, 0x73, 0x65] {
        if opened {
            (500, false, "error: door stuck"@)
        } else {
            (403, false, "error: door already closed"@)
        }
    } else {
        (400, false, "error: unknown command. available commands: `open`, `close`"@)
    }
}

fn bytes_equal(a: &[u8], b: &[u8]) -> (r: bool)
    ensures
        r == (a@ == b@),
{
    if a.len() != b.len() {
        return false;
    }
    let mut i: usize = 0;
    while i < a.len()
        invariant
            i <= a@.len(),
            a@.len() == b@.len(),
            forall|j: int| 0 <= j < i ==> a@[j] == b@[j],
        decreases a@.len() - i,
    {
        if a[i] != b[i] {
            return false;
        }
        i = i + 1;
    }
    assert(a@ =~= b@);
    true
}

/// Handles a door command of the form `COMMAND KEY`, with `is_valid_key` telling whether the
/// key is a current alpha key.
pub fn door_control(progress: ProgressCookie, command: &str, is_valid_key: impl Fn(&str) -> bool) -> (response: DoorResponse)
    requires
        forall|k: &str| call_requires(is_valid_key, (k,)),
    ensures
        ({
            let b = command.spec_bytes();
            let opened = progress.view()[Q000_SAVING_VICK as int] >= DOOR_OPENED;
            match first_space(b) {
                None => response.status == 400 && response.set_cookie is None
                    && response.body@ == "error: command must take the form `COMMAND KEY`"@,
                Some(i) => exists|key: &str, valid: bool|
                    #![trigger call_ensures(is_valid_key, (key,), valid)]
                    key.spec_bytes() == b.subrange(i + 1, b.len() as int)
                    && call_ensures(is_valid_key, (key,), valid)
                    && ({
                        let (status, stores, body) = door_outcome(b.subrange(0, i), valid, opened);
                        &&& response.status == status
                        &&& response.body@ == body
                        &&& stores ==> (response.set_cookie matches Some(c)
                            && c@ == "progress=; Max-Age=34560000; Path=/; SameSite=Lax"@)
                        &&& !stores ==> response.set_cookie is None
                    }),
            }
        }),
{
    let b = command.as_bytes();
    let mut i: usize = 0;
    while i < b.len() && b[i] != 0x20
        invariant
            i <= b@.len(),
            b@ == command.spec_bytes(),
            forall|j: int| 0 <= j < i ==> b@[j] != 0x20,
        decreases b@.len() - i,
    {
        i = i + 1;
    }
    if i >= b.len() {
        return DoorResponse {
            status: 400,
            set_cookie: None,
            body: "error: command must take the form `COMMAND KEY`",
        };
    }
    proof {
        lemma_str_valid(command);
        lemma_anchored_boundary(b@, i + 1);
        lemma_anchored_boundary(b@, b@.len() as int);
        assert(first_space(b@) == Some(i as int));
    }
    let key = slice(command, i + 1, b.len());
    let valid = is_valid_key(key);
    let name = slice_bytes(b, 0, i);
    let opened = progress.get(Q000_SAVING_VICK) >= DOOR_OPENED;
    let open: [u8; 4] = [0x6f, 0x70, 0x65, 0x6e];
    let close: [u8; 5] = [0x63, 0x6c, 0x6f, 0x73, 0x65];
    assert(open@ =~= seq![0x6fu8, 0x70, 0x65, 0x6e]);
    assert(close@ =~= seq![0x63u8, 0x6c, 0x6f, 0x73, 0x65]);
    if !valid {
        DoorResponse {
            status: 403,
            set_cookie: None,
            body: "error: invalid key. please request an Alpha Key via /treehouse/protocol/key-alpha/v1",
        }
    } else if bytes_equal(name, open.as_slice()) {
        if opened {
            DoorResponse { status: 403, set_cookie: None, body: "error: door already open" }
        } else {
            let mut progress = progress;
            progress.set(Q000_SAVING_VICK, DOOR_OPENED);
            DoorResponse { status: 200, set_cookie: Some(progress.to_header_value()), body: "ok" }
        }
    } else if bytes_equal(name, close.as_slice()) {
        if opened {
            DoorResponse { status: 500, set_cookie: None, body: "error: door stuck" }
        } else {
            DoorResponse { status: 403, set_cookie: None, body: "error: door already closed" }
        }
    } else {
        DoorResponse {
            status: 400,
            set_cookie: None,
            body: "error: unknown command. available commands: `open`, `close`",
        }
    }
}

} // verus!
