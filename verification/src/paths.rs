//! Where the manager keeps its files, and the names it gives them.
//!
//! The game keeps one save file per user and game mode; the manager copies it
//! to one backup file per node, in a directory of its own.

use vstd::prelude::*;
use std::path::PathBuf;
use crate::text::{
    decimal, is_digit, lemma_cancel_prefix, lemma_decimal, lemma_decimal_injective, lemma_split_after_digits,
    push_decimal,
};

verus! {

/// `std::path::PathBuf`, carried through as an opaque value.
#[verifier::external_type_specification]
#[verifier::external_body]
pub struct ExPathBuf(std::path::PathBuf);

/// The directory where the game keeps its save files.
pub const USERDATA_PATH: &'static str = "C:\\ProgramData\\PopCap Games\\PlantsVsZombies\\userdata";

/// The path `PathBuf::from(s)` gives for the text `s`.
pub uninterp spec fn path_of(s: Seq<char>) -> PathBuf;

/// The path `base.join(name)` gives.
pub uninterp spec fn joined(base: PathBuf, name: Seq<char>) -> PathBuf;

/// Makes a path of the text `s` with `PathBuf::from`; the result is named
/// `path_of(s@)`.
#[verifier::external_body]
fn path_from(s: &str) -> (p: PathBuf)
    ensures
        p == path_of(s@),
{
    PathBuf::from(s)
}

/// Appends the component `name` to `base` with `Path::join`; the result is
/// named `joined(*base, name@)`.
#[verifier::external_body]
fn path_join(base: &PathBuf, name: &str) -> (p: PathBuf)
    ensures
        p == joined(*base, name@),
{
    base.join(name)
}

/// The user's local data directory, as `dirs::data_local_dir()` finds it in
/// the environment; it may be missing.  Nothing is stated of the result.
#[verifier::external_body]
fn local_data_dir() -> (d: Option<PathBuf>) {
    dirs::data_local_dir()
}

/// The manager's directory, given the user's local data directory: the
/// `PVZ-manager` directory in it, or in `.` when there is none.
pub open spec fn save_path_from(local_dir: Option<PathBuf>) -> PathBuf {
    joined(
        match local_dir {
            Some(d) => d,
            None => path_of("."@),
        },
        "PVZ-manager"@,
    )
}

/// The name of the game's save file of user `user_id` and game `game_id`.
pub open spec fn game_file_name_of(user_id: u32, game_id: u32) -> Seq<char> {
    "game"@ + decimal(user_id as nat) + "_"@ + decimal(game_id as nat) + ".dat"@
}

/// The name of the backup file of node `node_id` of that save.
pub open spec fn backup_file_name_of(user_id: u32, game_id: u32, node_id: u32) -> Seq<char> {
    "game"@ + decimal(user_id as nat) + "_"@ + decimal(game_id as nat) + "backup"@ + decimal(
        node_id as nat,
    ) + ".dat"@
}

/// The manager's directory (see `save_path_from`) for a given local data
/// directory.
pub fn save_path_in(local_dir: Option<PathBuf>) -> (p: PathBuf)
    ensures
        p == save_path_from(local_dir),
{
    let base = match local_dir {
        Some(d) => d,
        None => path_from("."),
    };
    path_join(&base, "PVZ-manager")
}

/// The manager's directory: `PVZ-manager` in the user's local data
/// directory, or in `.` when the environment gives none.
pub fn get_save_path() -> (p: PathBuf)
    ensures
        exists|d: Option<PathBuf>| p == save_path_from(d),
{
    let d = local_data_dir();
    save_path_in(d)
}

/// The file in the manager's directory `save_path` where the manager's
/// data is kept.
pub fn manager_file_path_in(save_path: &PathBuf) -> (p: PathBuf)
    ensures
        p == joined(*save_path, "manager.json"@),
{
    path_join(save_path, "manager.json")
}

/// The file where the manager's data is kept: `manager.json` in the
/// manager's directory.
pub fn get_manager_file_path() -> (p: PathBuf)
    ensures
        exists|d: Option<PathBuf>| p == joined(save_path_from(d), "manager.json"@),
{
    let save_path = get_save_path();
    manager_file_path_in(&save_path)
}

/// The name of the game's save file (see `game_file_name_of`).
pub fn game_file_name(user_id: u32, game_id: u32) -> (s: String)
    ensures
        s@ == game_file_name_of(user_id, game_id),
{
    let mut s = String::from_str("game");
    push_decimal(&mut s, user_id);
    s.append("_");
    push_decimal(&mut s, game_id);
    s.append(".dat");
    s
}

/// The name of a node's backup file (see `backup_file_name_of`).
pub fn backup_file_name(user_id: u32, game_id: u32, node_id: u32) -> (s: String)
    ensures
        s@ == backup_file_name_of(user_id, game_id, node_id),
{
    let mut s = String::from_str("game");
    push_decimal(&mut s, user_id);
    s.append("_");
    push_decimal(&mut s, game_id);
    s.append("backup");
    push_decimal(&mut s, node_id);
    s.append(".dat");
    s
}

/// The game's save file of user `user_id` and game `game_id`, in the game's
/// save directory.
pub fn get_game_file_path(user_id: u32, game_id: u32) -> (p: PathBuf)
    ensures
        p == joined(path_of(USERDATA_PATH@), game_file_name_of(user_id, game_id)),
{
    let dir = path_from(USERDATA_PATH);
    let name = game_file_name(user_id, game_id);
    path_join(&dir, name.as_str())
}

/// The backup file of node `node_id`, in the manager's directory `save_path`.
pub fn backup_file_path_in(save_path: &PathBuf, user_id: u32, game_id: u32, node_id: u32) -> (p: PathBuf)
    ensures
        p == joined(*save_path, backup_file_name_of(user_id, game_id, node_id)),
{
    let name = backup_file_name(user_id, game_id, node_id);
    path_join(save_path, name.as_str())
}

/// The backup file of node `node_id`, in the manager's directory.
pub fn get_backup_file_path(user_id: u32, game_id: u32, node_id: u32) -> (p: PathBuf)
    ensures
        exists|d: Option<PathBuf>| p == joined(save_path_from(d), backup_file_name_of(user_id, game_id, node_id)),
{
    let save_path = get_save_path();
    backup_file_path_in(&save_path, user_id, game_id, node_id)
}

/// A save file name, grouped from the right.
proof fn lemma_game_name_shape(u: u32, g: u32)
    ensures
        game_file_name_of(u, g) == "game"@ + (decimal(u as nat) + ("_"@ + (decimal(g as nat) + ".dat"@))),
{
    assert(game_file_name_of(u, g) =~= "game"@ + (decimal(u as nat) + ("_"@ + (decimal(g as nat) + ".dat"@))));
}

/// A backup file name, grouped from the right.
proof fn lemma_backup_name_shape(u: u32, g: u32, n: u32)
    ensures
        backup_file_name_of(u, g, n) == "game"@ + (decimal(u as nat) + ("_"@ + (decimal(g as nat) + (
        "backup"@ + (decimal(n as nat) + ".dat"@))))),
{
    assert(backup_file_name_of(u, g, n) =~= "game"@ + (decimal(u as nat) + ("_"@ + (decimal(g as nat) + (
    "backup"@ + (decimal(n as nat) + ".dat"@))))));
}

/// Two numerals followed by texts that start with a non-digit: equal
/// wholes have equal numbers and equal texts.
proof fn lemma_number_then_text(m: nat, x: Seq<char>, n: nat, y: Seq<char>)
    requires
        decimal(m) + x == decimal(n) + y,
        x.len() >= 1,
        y.len() >= 1,
        !is_digit(x[0]),
        !is_digit(y[0]),
    ensures
        m == n,
        x == y,
{
    lemma_decimal(m);
    lemma_decimal(n);
    lemma_split_after_digits(decimal(m), x, decimal(n), y);
    lemma_decimal_injective(m, n);
}

/// Different saves have different save files: the name of a save file
/// determines the user and the game.
pub proof fn law_game_file_names_differ(u1: u32, g1: u32, u2: u32, g2: u32)
    requires
        game_file_name_of(u1, g1) == game_file_name_of(u2, g2),
    ensures
        u1 == u2,
        g1 == g2,
{
    reveal_strlit("_");
    reveal_strlit(".dat");
    lemma_game_name_shape(u1, g1);
    lemma_game_name_shape(u2, g2);
    let x1 = "_"@ + (decimal(g1 as nat) + ".dat"@);
    let x2 = "_"@ + (decimal(g2 as nat) + ".dat"@);
    lemma_cancel_prefix("game"@, decimal(u1 as nat) + x1, decimal(u2 as nat) + x2);
    lemma_number_then_text(u1 as nat, x1, u2 as nat, x2);
    lemma_cancel_prefix("_"@, decimal(g1 as nat) + ".dat"@, decimal(g2 as nat) + ".dat"@);
    lemma_number_then_text(g1 as nat, ".dat"@, g2 as nat, ".dat"@);
}

/// Different nodes have different backup files: the name of a backup file
/// determines the user, the game and the node.
pub proof fn law_backup_file_names_differ(u1: u32, g1: u32, n1: u32, u2: u32, g2: u32, n2: u32)
    requires
        backup_file_name_of(u1, g1, n1) == backup_file_name_of(u2, g2, n2),
    ensures
        u1 == u2,
        g1 == g2,
        n1 == n2,
{
    reveal_strlit("_");
    reveal_strlit("backup");
    reveal_strlit(".dat");
    lemma_backup_name_shape(u1, g1, n1);
    lemma_backup_name_shape(u2, g2, n2);
    let z1 = "backup"@ + (decimal(n1 as nat) + ".dat"@);
    let z2 = "backup"@ + (decimal(n2 as nat) + ".dat"@);
    let x1 = "_"@ + (decimal(g1 as nat) + z1);
    let x2 = "_"@ + (decimal(g2 as nat) + z2);
    lemma_cancel_prefix("game"@, decimal(u1 as nat) + x1, decimal(u2 as nat) + x2);
    lemma_number_then_text(u1 as nat, x1, u2 as nat, x2);
    lemma_cancel_prefix("_"@, decimal(g1 as nat) + z1, decimal(g2 as nat) + z2);
    lemma_number_then_text(g1 as nat, z1, g2 as nat, z2);
    lemma_cancel_prefix("backup"@, decimal(n1 as nat) + ".dat"@, decimal(n2 as nat) + ".dat"@);
    lemma_number_then_text(n1 as nat, ".dat"@, n2 as nat, ".dat"@);
}

/// A backup never takes a save file's name: no save file name is the name
/// of a backup file.
pub proof fn law_game_file_is_never_a_backup(u1: u32, g1: u32, u2: u32, g2: u32, n2: u32)
    ensures
        game_file_name_of(u1, g1) != backup_file_name_of(u2, g2, n2),
{
    reveal_strlit("_");
    reveal_strlit("backup");
    reveal_strlit(".dat");
    if game_file_name_of(u1, g1) == backup_file_name_of(u2, g2, n2) {
        lemma_game_name_shape(u1, g1);
        lemma_backup_name_shape(u2, g2, n2);
        let z1 = ".dat"@;
        let z2 = "backup"@ + (decimal(n2 as nat) + ".dat"@);
        let x1 = "_"@ + (decimal(g1 as nat) + z1);
        let x2 = "_"@ + (decimal(g2 as nat) + z2);
        lemma_cancel_prefix("game"@, decimal(u1 as nat) + x1, decimal(u2 as nat) + x2);
        lemma_number_then_text(u1 as nat, x1, u2 as nat, x2);
        lemma_cancel_prefix("_"@, decimal(g1 as nat) + z1, decimal(g2 as nat) + z2);
        lemma_number_then_text(g1 as nat, z1, g2 as nat, z2);
        assert(z1[0] == z2[0]);
    }
}

} // verus!
