//! Checking a solution to a maze: a hamster starts in the top left room and walks two cells
//! per letter, `E`, `S`, `W` or `N`, never back onto its own path and never into a wall.
use vstd::prelude::*;
use rand::seq::SliceRandom;

use wyrand::WyRand;

use crate::maze::{default_art, draws_with, grid_text, perfect_maze, saturating_add_signed, Cell, Maze};
use crate::text::{chars_of, decimal, push_decimal, str_equal};

verus! {

/// Why a solution does not solve the maze.
#[derive(Debug, Clone, PartialEq, Eq)]
pub enum SolutionError {
    /// The hamster stepped onto a cell it had already visited; `path` draws the maze with
    /// the cells visited so far.
    Backtracked { path: String },
    /// The hamster walked into a wall; `path` draws the maze with the cells visited so far,
    /// the wall among them.
    HitWall { path: String },
    /// A letter other than `E`, `S`, `W` and `N`, at the given character index.
    InvalidCharacter { index: usize, character: char },
    /// The walk ended away from the southeastmost corner.
    NotAtExit,
}

/// How a walk fails, as the hamster's state at the moment of failure.
pub enum WalkFailure {
    Backtracked(Seq<(u32, u32)>),
    HitWall(Seq<(u32, u32)>),
    InvalidCharacter(int, char),
}

/// The hamster's position and the cells it has visited.
pub struct Hamster {
    pub x: u32,
    pub y: u32,
    pub path: Seq<(u32, u32)>,
}

/// How a cell is drawn when the hamster's path is shown: visited empty cells as `..`,
/// visited walls as `!!`, other cells as usual.
pub open spec fn path_art(path: Seq<(u32, u32)>, x: u32, y: u32, c: Cell) -> Seq<char> {
    match c {
        Cell::Empty => if path.contains((x, y)) {
            ".."@
        } else {
            "  "@
        },
        Cell::Solid => if path.contains((x, y)) {
            "!!"@
        } else {
            "##"@
        },
    }
}

/// The maze drawn with the hamster's path.
pub open spec fn path_picture(maze: Maze, path: Seq<(u32, u32)>) -> Seq<char> {
    grid_text(maze.cells@, maze.width, maze.height as int, |x: u32, y: u32, c: Cell| path_art(path, x, y, c))
}

/// One step of the hamster by `(dx, dy)`, clamped to the range of `u32`.
pub open spec fn step(maze: Maze, h: Hamster, dx: i32, dy: i32) -> Result<Hamster, WalkFailure> {
    let x = saturating_add_signed(h.x, dx);
    let y = saturating_add_signed(h.y, dy);
    if h.path.contains((x, y)) {
        Err(WalkFailure::Backtracked(h.path))
    } else if maze.cell_at(x, y) != Some(Cell::Empty) {
        Err(WalkFailure::HitWall(h.path.push((x, y))))
    } else {
        Ok(Hamster { x, y, path: h.path.push((x, y)) })
    }
}

/// Two steps of the hamster by `(dx, dy)` each.
pub open spec fn double_step(maze: Maze, h: Hamster, dx: i32, dy: i32) -> Result<Hamster, WalkFailure> {
    match step(maze, h, dx, dy) {
        Err(f) => Err(f),
        Ok(h) => step(maze, h, dx, dy),
    }
}

/// The walk that the letters of `s` from index `i` on describe.
pub open spec fn walk(maze: Maze, s: Seq<char>, i: int, h: Hamster) -> Result<Hamster, WalkFailure>
    decreases s.len() - i,
{
    if i < 0 || i >= s.len() {
        Ok(h)
    } else {
        let next = if s[i] == 'E' {
            double_step(maze, h, 1, 0)
        } else if s[i] == 'S' {
            double_step(maze, h, 0, 1)
        } else if s[i] == 'W' {
            double_step(maze, h, -1i32, 0)
        } else if s[i] == 'N' {
            double_step(maze, h, 0, -1i32)
        } else {
            Err(WalkFailure::InvalidCharacter(i, s[i]))
        };
        match next {
            Err(f) => Err(f),
            Ok(h) => walk(maze, s, i + 1, h),
        }
    }
}

/// Where the hamster starts: in the top left room.
pub open spec fn start() -> Hamster {
    Hamster { x: 1, y: 1, path: seq![(1u32, 1u32)] }
}

/// The direction of a letter: `E` east, `S` south, `W` west, anything else north.
pub open spec fn direction(c: char) -> (i32, i32) {
    if c == 'E' {
        (1, 0)
    } else if c == 'S' {
        (0, 1)
    } else if c == 'W' {
        (-1i32, 0i32)
    } else {
        (0i32, -1i32)
    }
}

/// Where one step in the direction of `c` leads from `p`, clamped to the range of `u32`.
pub open spec fn moved(p: (u32, u32), c: char) -> (u32, u32) {
    (saturating_add_signed(p.0, direction(c).0), saturating_add_signed(p.1, direction(c).1))
}

/// No cell occurs twice in `path`.
pub open spec fn no_repeats(path: Seq<(u32, u32)>) -> bool {
    forall|a: int, b: int| 0 <= a < b < path.len() ==> path[a] != path[b]
}

/// A walk that succeeds from index `i` reads only `E`, `S`, `W` and `N` from there on, adds
/// two cells to the path for each letter, lands on empty cells only, never revisits a cell of
/// the path, and stops where its path ends.
proof fn lemma_walk_ok(maze: Maze, s: Seq<char>, i: int, h: Hamster)
    requires
        0 <= i <= s.len(),
        walk(maze, s, i, h) is Ok,
        h.path.len() >= 1,
        h.path.last() == (h.x, h.y),
    ensures
        ({
            let f = walk(maze, s, i, h)->Ok_0;
            let n = h.path.len() as int;
            &&& forall|j: int| i <= j < s.len() ==> s[j] == 'E' || s[j] == 'S' || s[j] == 'W' || s[j] == 'N'
            &&& forall|j: int|
                i <= j < s.len() ==> f.path[n + 2 * (j - i)] == moved(f.path[n + 2 * (j - i) - 1], #[trigger] s[j])
                    && f.path[n + 2 * (j - i) + 1] == moved(f.path[n + 2 * (j - i)], s[j])
            &&& f.path.len() == h.path.len() + 2 * (s.len() - i)
            &&& f.path.subrange(0, h.path.len() as int) == h.path
            &&& forall|k: int|
                h.path.len() <= k < f.path.len() ==> maze.cell_at(f.path[k].0, f.path[k].1) == Some(Cell::Empty)
            &&& no_repeats(h.path) ==> no_repeats(f.path)
            &&& (i < s.len() ==> f.path.last() == (f.x, f.y))
            &&& (i == s.len() ==> f == h)
        }),
    decreases s.len() - i,
{
    if i < s.len() {
        let (dx, dy): (i32, i32) = direction(s[i]);
        let h1 = step(maze, h, dx, dy)->Ok_0;
        let h2 = step(maze, h1, dx, dy)->Ok_0;
        assert(double_step(maze, h, dx, dy) == Ok::<Hamster, WalkFailure>(h2));
        lemma_walk_ok(maze, s, i + 1, h2);
        let f = walk(maze, s, i, h)->Ok_0;
        assert(f == walk(maze, s, i + 1, h2)->Ok_0);
        assert(h2.path == h.path.push((h1.x, h1.y)).push((h2.x, h2.y)));
        assert(f.path.subrange(0, h2.path.len() as int) == h2.path);
        assert(f.path.subrange(0, h.path.len() as int) =~= h2.path.subrange(0, h.path.len() as int));
        assert(h2.path.subrange(0, h.path.len() as int) =~= h.path);
        assert forall|k: int| h.path.len() <= k < f.path.len() implies maze.cell_at(f.path[k].0, f.path[k].1) == Some(
            Cell::Empty,
        ) by {
            if k < h2.path.len() {
                assert(f.path[k] == f.path.subrange(0, h2.path.len() as int)[k]);
            }
        }
        if no_repeats(h.path) {
            assert(no_repeats(h2.path)) by {
                assert forall|a: int, b: int| 0 <= a < b < h2.path.len() implies h2.path[a] != h2.path[b] by {
                    if b == h.path.len() {
                        assert(h.path.contains(h.path[a]));
                    } else if b == h.path.len() + 1 {
                        if a < h.path.len() {
                            assert(h1.path[a] == h.path[a]);
                        }
                        assert(h1.path.contains(h1.path[a]));
                    }
                }
            }
        }
        if i + 1 == s.len() {
            assert(f == h2);
        }
        let n = h.path.len() as int;
        assert forall|j: int| i <= j < s.len() implies f.path[n + 2 * (j - i)] == moved(
            f.path[n + 2 * (j - i) - 1],
            #[trigger] s[j],
        ) && f.path[n + 2 * (j - i) + 1] == moved(f.path[n + 2 * (j - i)], s[j]) by {
            if j == i {
                assert(f.path[n - 1] == f.path.subrange(0, h2.path.len() as int)[n - 1]);
                assert(f.path[n] == f.path.subrange(0, h2.path.len() as int)[n]);
                assert(f.path[n + 1] == f.path.subrange(0, h2.path.len() as int)[n + 1]);
                assert(h2.path[n - 1] == h.path.last());
            } else {
                assert(n + 2 * (j - i) == h2.path.len() + 2 * (j - (i + 1)));
            }
        }
    }
}

/// A solution that is accepted reads only `E`, `S`, `W` and `N`; its walk from the top left
/// room, two steps in the direction of each letter, lands on empty cells only, never on a cell
/// twice, and ends in the bottom right corner.
pub proof fn law_accepted_solutions_walk_the_maze(maze: Maze, solution: Seq<char>)
    requires
        walk(maze, solution, 0, start()) matches Ok(h) && h.x == maze.width - 2 && h.y == maze.height - 2,
    ensures
        ({
            let h = walk(maze, solution, 0, start())->Ok_0;
            &&& forall|j: int|
                0 <= j < solution.len() ==> solution[j] == 'E' || solution[j] == 'S' || solution[j] == 'W'
                    || solution[j] == 'N'
            &&& forall|j: int|
                0 <= j < solution.len() ==> h.path[2 * j + 1] == moved(h.path[2 * j], #[trigger] solution[j])
                    && h.path[2 * j + 2] == moved(h.path[2 * j + 1], solution[j])
            &&& h.path.len() == 1 + 2 * solution.len()
            &&& h.path[0] == (1u32, 1u32)
            &&& forall|k: int| 1 <= k < h.path.len() ==> maze.cell_at(h.path[k].0, h.path[k].1) == Some(Cell::Empty)
            &&& no_repeats(h.path)
            &&& h.path.last() == (h.x, h.y)
            &&& h.x == maze.width - 2 && h.y == maze.height - 2
        }),
{
    lemma_walk_ok(maze, solution, 0, start());
    let h = walk(maze, solution, 0, start())->Ok_0;
    assert(h.path[0] == h.path.subrange(0, 1)[0]);
    if solution.len() == 0 {
        assert(h == start());
    }
}

/// `error` reports `failure`.
pub open spec fn reports(maze: Maze, error: SolutionError, failure: WalkFailure) -> bool {
    match failure {
        WalkFailure::Backtracked(path) => error matches SolutionError::Backtracked { path: p } && p@
            == path_picture(maze, path),
        WalkFailure::HitWall(path) => error matches SolutionError::HitWall { path: p } && p@
            == path_picture(maze, path),
        WalkFailure::InvalidCharacter(i, c) => error == SolutionError::InvalidCharacter {
            index: i as usize,
            character: c,
        },
    }
}

struct Walker<'a> {
    maze: &'a Maze,
    path: Vec<(u32, u32)>,
    x: u32,
    y: u32,
}

fn saturating_add_signed_exec(c: u32, d: i32) -> (r: u32)
    ensures
        r == saturating_add_signed(c, d),
{
    let v: i64 = c as i64 + d as i64;
    if v < 0 {
        0
    } else if v > 0xffff_ffffi64 {
        u32::MAX
    } else {
        v as u32
    }
}

impl<'a> Walker<'a> {
    spec fn state(&self) -> Hamster {
        Hamster { x: self.x, y: self.y, path: self.path@ }
    }

    fn visits(&self, xy: (u32, u32)) -> (r: bool)
        ensures
            r == self.path@.contains(xy),
    {
        let mut i: usize = 0;
        while i < self.path.len()
            invariant
                i <= self.path@.len(),
                forall|j: int| 0 <= j < i ==> self.path@[j] != xy,
            decreases self.path@.len() - i,
        {
            let (px, py) = self.path[i];
            if px == xy.0 && py == xy.1 {
                return true;
            }
            i = i + 1;
        }
        false
    }

    /// The maze with the path drawn on it.
    fn visualize_path(&self) -> (s: String)
        requires
            self.maze.wf(),
        ensures
            s@ == path_picture(*self.maze, self.path@),
    {
        let draw = |x: u32, y: u32, c: Cell| -> (r: &'static str)
            ensures
                r@ == path_art(self.path@, x, y, c),
            {
                let visited = self.visits((x, y));
                match c {
                    Cell::Empty => if visited {
                        ".."
                    } else {
                        "  "
                    },
                    Cell::Solid => if visited {
                        "!!"
                    } else {
                        "##"
                    },
                }
            };
        let s = self.maze.render(draw);
        proof {
            let piece = |x: u32, y: u32, c: Cell| path_art(self.path@, x, y, c);
            assert(draws_with(draw, piece));
        }
        s
    }

    fn step(&mut self, dx: i32, dy: i32) -> (r: Result<(), SolutionError>)
        requires
            old(self).maze.wf(),
        ensures
            final(self).maze == old(self).maze,
            match step(*old(self).maze, old(self).state(), dx, dy) {
                Ok(h) => r is Ok && final(self).state() == h,
                Err(f) => r matches Err(e) && reports(*old(self).maze, e, f),
            },
    {
        self.x = saturating_add_signed_exec(self.x, dx);
        self.y = saturating_add_signed_exec(self.y, dy);
        if self.visits((self.x, self.y)) {
            return Err(SolutionError::Backtracked { path: self.visualize_path() });
        }
        self.path.push((self.x, self.y));
        let open = match self.maze.get((self.x, self.y)) {
            Some(cell) => cell == Cell::Empty,
            None => false,
        };
        if !open {
            return Err(SolutionError::HitWall { path: self.visualize_path() });
        }
        Ok(())
    }
}

/// Checks that `solution` leads the hamster from the top left room to the bottom right
/// corner of `maze` without backtracking or bumping into walls. The walk has reached the
/// corner when the hamster stands both in its column and in its row.
pub fn check_maze_solution(maze: &Maze, solution: &str) -> (result: Result<(), SolutionError>)
    requires
        maze.wf(),
        maze.width >= 2,
        maze.height >= 2,
    ensures
        match walk(*maze, solution@, 0, start()) {
            Ok(h) => if h.x != maze.width - 2 || h.y != maze.height - 2 {
                result == Err::<(), SolutionError>(SolutionError::NotAtExit)
            } else {
                result is Ok
            },
            Err(f) => result matches Err(e) && reports(*maze, e, f),
        },
{
    let mut walker = Walker { maze, path: Vec::new(), x: 1, y: 1 };
    walker.path.push((1, 1));
    let chars = chars_of(solution);
    let ghost goal = walk(*maze, solution@, 0, start());
    assert(walker.state().path =~= seq![(1u32, 1u32)]);
    let mut i: usize = 0;
    while i < chars.len()
        invariant
            walker.maze == maze,
            maze.wf(),
            chars@ == solution@,
            i <= chars@.len(),
            goal == walk(*maze, solution@, 0, start()),
            walk(*maze, solution@, i as int, walker.state()) == goal,
        decreases chars@.len() - i,
    {
        let c = chars[i];
        if c == 'E' {
            walker.step(1, 0)?;
            walker.step(1, 0)?;
        } else if c == 'S' {
            walker.step(0, 1)?;
            walker.step(0, 1)?;
        } else if c == 'W' {
            walker.step(-1, 0)?;
            walker.step(-1, 0)?;
        } else if c == 'N' {
            walker.step(0, -1)?;
            walker.step(0, -1)?;
        } else {
            return Err(SolutionError::InvalidCharacter { index: i, character: c });
        }
        i = i + 1;
    }
    if walker.x != maze.width - 2 || walker.y != maze.height - 2 {
        return Err(SolutionError::NotAtExit);
    }
    Ok(())
}

/// The `Debug` text of a character, as `{:?}` writes it: quoted, with escapes.
pub uninterp spec fn char_debug(c: char) -> Seq<char>;

/// `format!("{c:?}")`. For a printable ASCII character other than a quote or a backslash the
/// text is the character in single quotes; nothing more is stated.
#[verifier::external_body]
fn debug_char(c: char) -> (s: String)
    ensures
        s@ == char_debug(c),
        (' ' <= c <= '~' && c != '\'' && c != '\\') ==> s@ == seq!['\'', c, '\''],
{
    format!("{c:?}")
}

/// The message of a solution error.
pub open spec fn solution_error_message(e: SolutionError) -> Seq<char> {
    match e {
        SolutionError::Backtracked { path } => "the hamster backtracked.\nnote: the rules say that the hamster must not backtrack.\n      try to make your hamster smart enough to solve the maze without having to go backwards\n\nhere's the path the hamster took up to the point of error:\n"@
            + path@,
        SolutionError::HitWall { path } => "the hamster walked into a wall.\nnote: the walls stretch high enough that the hamster cannot climb over them!\n      try making the hamster solve the maze a bit more cleverly\n\nhere's the path the hamster took up to the point of error:\n"@
            + path@,
        SolutionError::InvalidCharacter { index, character } => "invalid character encountered at input string index "@
            + decimal(index as nat) + ": "@ + char_debug(character)
            + ". only 'E', 'S', 'W', 'N' are allowed"@,
        SolutionError::NotAtExit => "the hamster did not reach the southeastmost corner of the maze"@,
    }
}

impl SolutionError {
    /// The message of the error, as the player reads it.
    pub fn message(&self) -> (s: String)
        ensures
            s@ == solution_error_message(*self),
    {
        match self {
            SolutionError::Backtracked { path } => {
                let mut s = "the hamster backtracked.\nnote: the rules say that the hamster must not backtrack.\n      try to make your hamster smart enough to solve the maze without having to go backwards\n\nhere's the path the hamster took up to the point of error:\n".to_owned();
                s.push_str(path.as_str());
                s
            },
            SolutionError::HitWall { path } => {
                let mut s = "the hamster walked into a wall.\nnote: the walls stretch high enough that the hamster cannot climb over them!\n      try making the hamster solve the maze a bit more cleverly\n\nhere's the path the hamster took up to the point of error:\n".to_owned();
                s.push_str(path.as_str());
                s
            },
            SolutionError::InvalidCharacter { index, character } => {
                let mut s = "invalid character encountered at input string index ".to_owned();
                push_decimal(&mut s, *index);
                s.push_str(": ");
                let d = debug_char(*character);
                s.push_str(d.as_str());
                s.push_str(". only 'E', 'S', 'W', 'N' are allowed");
                s
            },
            SolutionError::NotAtExit => "the hamster did not reach the southeastmost corner of the maze".to_owned(),
        }
    }
}

/// `SliceRandom::choose` with `rand::thread_rng`: one of `letters`, picked at random. It
/// picks one whenever there is one to pick. Which one it is depends on chance, and is not
/// stated.
#[verifier::external_body]
fn random_letter(letters: &[u8]) -> (c: u8)
    requires
        letters@.len() > 0,
    ensures
        letters@.contains(c),
{
    *letters.choose(&mut rand::thread_rng()).unwrap()
}

/// The uppercase letters `A` to `Z`, as bytes.
fn uppercase_letters() -> (letters: Vec<u8>)
    ensures
        letters@.len() == 26,
        forall|i: int| 0 <= i < 26 ==> #[trigger] letters@[i] == 65 + i,
{
    let mut letters: Vec<u8> = Vec::new();
    let mut c: u8 = 65;
    while c <= 90
        invariant
            65 <= c <= 91,
            letters@.len() == c - 65,
            forall|i: int| 0 <= i < letters@.len() ==> #[trigger] letters@[i] == 65 + i,
        decreases 91 - c,
    {
        letters.push(c);
        c = c + 1;
    }
    letters
}

/// A new alpha key: 33 uppercase letters, each picked at random, and an alpha.
pub fn alpha_key() -> (key: String)
    ensures
        key@.len() == 34,
        forall|i: int| 0 <= i < 33 ==> 'A' <= #[trigger] key@[i] <= 'Z',
        key@[33] == '\u{03b1}',
{
    let letters = uppercase_letters();
    let mut key = String::new();
    let mut i: usize = 0;
    while i < 33
        invariant
            i <= 33,
            key@.len() == i,
            forall|j: int| 0 <= j < i ==> 'A' <= #[trigger] key@[j] <= 'Z',
            letters@.len() == 26,
            forall|j: int| 0 <= j < 26 ==> #[trigger] letters@[j] == 65 + j,
        decreases 33 - i,
    {
        let letter = random_letter(letters.as_slice());
        proof {
            let j = choose|j: int| 0 <= j < letters@.len() && letters@[j] == letter;
            assert(letters@[j] == 65 + j);
        }
        key.push(letter as char);
        i = i + 1;
    }
    key.push('\u{03b1}');
    key
}

/// The greeting that opens a key registration.
pub open spec fn key_greeting() -> Seq<char> {
    "/treehouse/protocol/key-alpha/v1"@
}

/// What the other side of a key registration sent: a message with its text (as far as it is
/// text), a message that is not text, the end of the conversation, or a failure.
#[derive(Debug, Clone)]
pub enum KeyInput {
    Text(String),
    NotText,
    Closed,
    Failed,
}

/// What a key registration does next.
#[derive(Debug, Clone)]
pub enum KeyStep {
    /// Send a new maze, and wait for its solution.
    NewMaze,
    /// Send the text, and wait for the next command.
    Reply(String),
    /// Record the new key, send the text, and wait for the next command.
    IssueKey(String, String),
    /// Send the text, and close the conversation.
    ReplyAndClose(String),
    /// Close the conversation.
    Close,
    /// Give up without closing.
    Abort,
}

/// What a registration does with the message that should be a command: `key` asks for a
/// maze; anything else is answered as unknown and ends it.
pub fn key_command_step(input: &KeyInput) -> (step: KeyStep)
    ensures
        match input {
            KeyInput::Text(t) => if t@ == "key"@ {
                step is NewMaze
            } else {
                step matches KeyStep::ReplyAndClose(r) && r@ == "error: unknown command"@
            },
            KeyInput::NotText => step matches KeyStep::ReplyAndClose(r) && r@ == "error: unknown command"@,
            KeyInput::Closed => step is Close,
            KeyInput::Failed => step is Abort,
        },
{
    match input {
        KeyInput::Text(t) => {
            if str_equal(t.as_str(), "key") {
                KeyStep::NewMaze
            } else {
                KeyStep::ReplyAndClose("error: unknown command".to_owned())
            }
        },
        KeyInput::NotText => KeyStep::ReplyAndClose("error: unknown command".to_owned()),
        KeyInput::Closed => KeyStep::Close,
        KeyInput::Failed => KeyStep::Abort,
    }
}

/// The maze of a key registration: a perfect maze carved with `rng` into a solid grid 11
/// cells wide and 1035 high, and its picture.
pub fn key_maze(rng: &mut WyRand) -> (r: (Maze, String))
    ensures
        r.0.wf(),
        r.0.width == 11,
        r.0.height == 1035,
        perfect_maze(r.0),
        r.1@ == grid_text(r.0.cells@, r.0.width, r.0.height as int, |x: u32, y: u32, c: Cell| default_art(c)),
{
    let height: u32 = 11 | 1024;
    assert(11u32 | 1024u32 == 1035u32) by (bit_vector);
    let mut maze = Maze::new(11, height);
    maze.generate(rng);
    let picture = maze.render_default();
    (maze, picture)
}

/// What a registration does with the message that should solve `maze`: a solution earns a
/// new key; a wrong one is answered with what is wrong with it; a message that is not text
/// makes it give up, and the end of the conversation closes it.
pub fn key_answer_step(maze: &Maze, input: &KeyInput) -> (step: KeyStep)
    requires
        maze.wf(),
        maze.width >= 2,
        maze.height >= 2,
    ensures
        match input {
            KeyInput::Text(t) => {
                let outcome = walk(*maze, t@, 0, start());
                let solved = outcome matches Ok(h) && h.x == maze.width - 2 && h.y == maze.height - 2;
                if solved {
                    step matches KeyStep::IssueKey(key, reply) && reply@ == "ok: "@ + key@ && key@.len() == 34
                        && key@[33] == '\u{03b1}'
                } else {
                    step matches KeyStep::Reply(reply) && exists|e: SolutionError|
                        reply@ == "error: "@ + #[trigger] solution_error_message(e) && match outcome {
                            Ok(_) => e == SolutionError::NotAtExit,
                            Err(f) => reports(*maze, e, f),
                        }
                }
            },
            KeyInput::NotText => step is Abort,
            KeyInput::Closed => step is Close,
            KeyInput::Failed => step is Abort,
        },
{
    match input {
        KeyInput::Text(t) => match check_maze_solution(maze, t.as_str()) {
            Ok(()) => {
                let key = alpha_key();
                let mut reply = "ok: ".to_owned();
                reply.push_str(key.as_str());
                KeyStep::IssueKey(key, reply)
            },
            Err(e) => {
                let mut reply = "error: ".to_owned();
                let message = e.message();
                reply.push_str(message.as_str());
                KeyStep::Reply(reply)
            },
        },
        KeyInput::NotText => KeyStep::Abort,
        KeyInput::Closed => KeyStep::Close,
        KeyInput::Failed => KeyStep::Abort,
    }
}

} // verus!
