//! Players and the token allocator.
//!
//! Each player carries a display name and a single-character token that marks
//! the player's cells on the board. Tokens are handed out by an explicit
//! [`TokenAllocator`] owned by the setup phase: `'a'` for the first player,
//! then `'b'`, and so on, saturating at `'z'`. Saturation can produce
//! duplicate tokens, which game construction then rejects.

use vstd::prelude::*;

verus! {

/// Mathematical view of a player: the name's characters and the token symbol.
pub ghost struct PlayerV {
    pub name: Seq<char>,
    pub token: char,
}

/// A participant in the game, identified by a display name and a token
/// that is unique within a game.
pub struct Player {
    /// The player's display name; never empty.
    pub name: String,
    /// The single-character symbol marking this player's cells.
    pub token: char,
}

impl View for Player {
    type V = PlayerV;

    open spec fn view(&self) -> PlayerV {
        PlayerV { name: self.name@, token: self.token }
    }
}

impl DeepView for Player {
    type V = PlayerV;

    open spec fn deep_view(&self) -> PlayerV {
        self@
    }
}

impl Clone for Player {
    fn clone(&self) -> (r: Self)
        ensures
            r == *self,
    {
        Player { name: self.name.clone(), token: self.token }
    }
}

/// Whether two players are the same, comparing name and token by value.
pub fn player_eq(a: &Player, b: &Player) -> (r: bool)
    ensures
        r == (a@ == b@),
{
    a.token == b.token && a.name == b.name
}

/// Code of the first token, `'a'`.
pub const TOKEN_FIRST: u8 = 97;

/// Code of the last token, `'z'`; the allocator saturates here.
pub const TOKEN_LAST: u8 = 122;

/// Hands out player tokens in sequence, starting at `'a'` and saturating at
/// `'z'`. Owned by the setup phase and passed explicitly to each player
/// construction, so token assignment is deterministic and local.
pub struct TokenAllocator {
    /// Code of the next token to hand out; always a lowercase letter.
    pub next: u8,
}

impl TokenAllocator {
    /// The allocator only ever holds a lowercase letter code.
    pub open spec fn wf(&self) -> bool {
        TOKEN_FIRST <= self.next <= TOKEN_LAST
    }

    /// A fresh allocator, ready to hand out `'a'` first.
    pub fn new() -> (r: Self)
        ensures
            r.wf(),
            r.next == TOKEN_FIRST,
    {
        TokenAllocator { next: TOKEN_FIRST }
    }

    /// Hands out the next token and advances, staying at `'z'` once reached.
    pub fn next_token(&mut self) -> (t: char)
        requires
            old(self).wf(),
        ensures
            final(self).wf(),
            t == old(self).next as char,
            old(self).next < TOKEN_LAST ==> final(self).next == old(self).next + 1,
            old(self).next == TOKEN_LAST ==> final(self).next == TOKEN_LAST,
    {
        let t: char = self.next as char;
        if self.next < TOKEN_LAST {
            self.next = self.next + 1;
        }
        t
    }
}

impl Player {
    /// Creates a player with the given non-empty name and the next token
    /// from the allocator.
    pub fn new(name: String, tokens: &mut TokenAllocator) -> (p: Player)
        requires
            name@.len() > 0,
            old(tokens).wf(),
        ensures
            p.name == name,
            p.token == old(tokens).next as char,
            final(tokens).wf(),
            old(tokens).next < TOKEN_LAST ==> final(tokens).next == old(tokens).next + 1,
            old(tokens).next == TOKEN_LAST ==> final(tokens).next == TOKEN_LAST,
    {
        let token = tokens.next_token();
        Player { name, token }
    }
}

} // verus!
