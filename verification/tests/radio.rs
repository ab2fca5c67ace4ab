use std::str::FromStr;

use treehouse::hamster::{check_maze_solution, SolutionError};
use treehouse::maze::{Cell, Maze};
use treehouse::progress::{
    door_control, door_status, progress_from_cookie_header, ProgressCookie, DOOR_OPENED, NO_PROGRESS,
    Q000_SAVING_VICK, QUESTLINES,
};

#[test]
fn new_cookie_has_no_progress() {
    let cookie = ProgressCookie::new();
    for questline in 0..QUESTLINES {
        assert_eq!(cookie.get(questline), NO_PROGRESS);
    }
}

#[test]
fn set_progress_is_read_back() {
    let mut cookie = ProgressCookie::new();
    cookie.set(3, b'7');
    assert_eq!(cookie.get(3), b'7');
    assert_eq!(cookie.get(4), NO_PROGRESS);
}

#[test]
fn cookie_values_ignore_non_digits() {
    let cookie = ProgressCookie::from_progress_bytes(b"1x3");
    assert_eq!(cookie.get(0), b'1');
    assert_eq!(cookie.get(1), NO_PROGRESS);
    assert_eq!(cookie.get(2), b'3');
    assert_eq!(cookie.get(3), NO_PROGRESS);
    let parsed = ProgressCookie::from_str("9").unwrap();
    assert_eq!(parsed.get(0), b'9');
}

#[test]
fn cookie_values_beyond_the_questlines_are_ignored() {
    let long = [b'5'; 40];
    let cookie = ProgressCookie::from_progress_bytes(&long);
    assert_eq!(cookie.get(QUESTLINES - 1), b'5');
}

#[test]
fn header_value_keeps_the_cookie_for_400_days() {
    assert_eq!(
        ProgressCookie::new().to_header_value(),
        "progress=; Max-Age=34560000; Path=/; SameSite=Lax"
    );
}

#[test]
fn progress_is_found_among_cookies() {
    let cookie = progress_from_cookie_header(b"theme=dark;progress=21").unwrap();
    assert_eq!(cookie.get(0), b'2');
    assert_eq!(cookie.get(1), b'1');
    assert!(progress_from_cookie_header(b"theme=dark").is_none());
    assert!(progress_from_cookie_header(b"").is_none());
}

#[test]
fn door_status_follows_progress() {
    let mut cookie = ProgressCookie::new();
    assert_eq!(door_status(&cookie), "closed");
    cookie.set(Q000_SAVING_VICK, DOOR_OPENED);
    assert_eq!(door_status(&cookie), "open");
}

fn valid_key(key: &str) -> bool {
    key == "secret"
}

#[test]
fn door_opens_with_a_valid_key() {
    let response = door_control(ProgressCookie::new(), "open secret", valid_key);
    assert_eq!(response.status, 200);
    assert_eq!(response.body, "ok");
    assert_eq!(
        response.set_cookie.as_deref(),
        Some("progress=; Max-Age=34560000; Path=/; SameSite=Lax")
    );
}

#[test]
fn door_commands_are_checked() {
    let opened = || {
        let mut cookie = ProgressCookie::new();
        cookie.set(Q000_SAVING_VICK, DOOR_OPENED);
        cookie
    };

    let response = door_control(ProgressCookie::new(), "open wrong", valid_key);
    assert_eq!(response.status, 403);
    assert!(response.body.starts_with("error: invalid key"));

    let response = door_control(opened(), "open secret", valid_key);
    assert_eq!((response.status, response.body), (403, "error: door already open"));
    assert!(response.set_cookie.is_none());

    let response = door_control(opened(), "close secret", valid_key);
    assert_eq!((response.status, response.body), (500, "error: door stuck"));

    let response = door_control(ProgressCookie::new(), "close secret", valid_key);
    assert_eq!((response.status, response.body), (403, "error: door already closed"));

    let response = door_control(ProgressCookie::new(), "knock secret", valid_key);
    assert_eq!(response.status, 400);
    assert_eq!(response.body, "error: unknown command. available commands: `open`, `close`");

    let response = door_control(ProgressCookie::new(), "open", valid_key);
    assert_eq!((response.status, response.body), (400, "error: command must take the form `COMMAND KEY`"));
}

fn corridor() -> Maze {
    let mut maze = Maze::new(5, 5);
    maze.set((1, 1), Cell::Empty);
    maze.set((2, 1), Cell::Empty);
    maze.set((3, 1), Cell::Empty);
    maze.set((3, 2), Cell::Empty);
    maze.set((3, 3), Cell::Empty);
    maze
}

#[test]
fn solution_reaching_the_corner_is_accepted() {
    assert!(check_maze_solution(&corridor(), "ES").is_ok());
}

#[test]
fn reaching_only_the_last_column_is_not_the_corner() {
    assert!(matches!(check_maze_solution(&corridor(), "E"), Err(SolutionError::NotAtExit)));
    assert_eq!(
        SolutionError::NotAtExit.message(),
        "the hamster did not reach the southeastmost corner of the maze"
    );
}

#[test]
fn walking_into_a_wall_is_reported() {
    match check_maze_solution(&corridor(), "S") {
        Err(SolutionError::HitWall { path }) => {
            assert_eq!(path, "##########\n##..    ##\n##!!##  ##\n######  ##\n##########\n");
        }
        other => panic!("unexpected result: {other:?}"),
    }
}

#[test]
fn backtracking_is_reported() {
    match check_maze_solution(&corridor(), "EW") {
        Err(SolutionError::Backtracked { path }) => {
            assert_eq!(path, "##########\n##......##\n######  ##\n######  ##\n##########\n");
        }
        other => panic!("unexpected result: {other:?}"),
    }
}

#[test]
fn invalid_characters_are_reported() {
    match check_maze_solution(&corridor(), "X") {
        Err(SolutionError::InvalidCharacter { index, character }) => {
            assert_eq!((index, character), (0, 'X'));
        }
        other => panic!("unexpected result: {other:?}"),
    }
}

#[test]
fn stopping_short_is_reported() {
    assert!(matches!(check_maze_solution(&corridor(), ""), Err(SolutionError::NotAtExit)));
}
