//! The pure half of the obstacle-dodge game and its score keeping: state
//! transitions, collision tests, row drawing and the top-three score list.
//! Timers, key reading, random draws and the terminal stay with the caller,
//! which passes drawn booleans and indices in as plain values.

use vstd::prelude::*;

verus! {

/// A player action.
#[derive(Clone, Copy)]
pub enum PlayerMove {
    Up,
    Down,
    Quit,
}

/// A request to move, as the game server receives it; only the texts `up`,
/// `down` and `quit` stand for moves.
pub struct MoveRequest {
    pub movement: String,
}

/// The move a request's text stands for.
pub open spec fn spec_parse_move(s: Seq<char>) -> Option<PlayerMove> {
    if s == "up"@ {
        Some(PlayerMove::Up)
    } else if s == "down"@ {
        Some(PlayerMove::Down)
    } else if s == "quit"@ {
        Some(PlayerMove::Quit)
    } else {
        None
    }
}

/// Reads a move request, as [`spec_parse_move`] describes.
pub fn parse_move(req: &MoveRequest) -> (r: Option<PlayerMove>)
    ensures
        r == spec_parse_move(req.movement@),
{
    let s = req.movement.as_str();
    if crate::text::str_eq(s, "up") {
        Some(PlayerMove::Up)
    } else if crate::text::str_eq(s, "down") {
        Some(PlayerMove::Down)
    } else if crate::text::str_eq(s, "quit") {
        Some(PlayerMove::Quit)
    } else {
        None
    }
}

/// The visible game state: the player's cell, the two obstacle rows, the
/// score, and whether the game has ended.
pub struct GameState {
    pub player_pos: (usize, usize),
    pub top_row: Vec<bool>,
    pub bottom_row: Vec<bool>,
    pub score: u32,
    pub is_game_over: bool,
}

/// The two freshly drawn obstacle cells, with a full column broken up by the
/// tie-break draw: both rows never gain an obstacle in the same column.
pub open spec fn resolve_new_cells(new_top: bool, new_bottom: bool, drop_top: bool) -> (
    bool,
    bool,
) {
    if new_top && new_bottom {
        if drop_top {
            (false, true)
        } else {
            (true, false)
        }
    } else {
        (new_top, new_bottom)
    }
}

impl GameState {
    /// The state is consistent: two rows of one positive width, the player
    /// inside them.
    pub open spec fn wf(&self) -> bool {
        &&& self.top_row@.len() == self.bottom_row@.len()
        &&& self.player_pos.0 < self.top_row@.len()
        &&& self.player_pos.1 <= 1
    }

    /// Whether the player's cell holds an obstacle.
    pub open spec fn spec_collision(&self) -> bool {
        (self.player_pos.1 == 0 && self.top_row@[self.player_pos.0 as int]) || (self.player_pos.1
            == 1 && self.bottom_row@[self.player_pos.0 as int])
    }

    /// Whether the player's cell holds an obstacle.
    pub fn is_collision(&self) -> (r: bool)
        requires
            self.wf(),
        ensures
            r == self.spec_collision(),
    {
        let (x, y) = self.player_pos;
        (y == 0 && self.top_row[x]) || (y == 1 && self.bottom_row[x])
    }

    /// Applies a player action: up and down move the player between the two
    /// rows, quitting ends the game, and nothing changes once the game is
    /// over.
    pub fn handle_input(&mut self, movement: PlayerMove)
        ensures
            old(self).is_game_over ==> *final(self) == *old(self),
            !old(self).is_game_over ==> match movement {
                PlayerMove::Up => *final(self) == GameState {
                    player_pos: (old(self).player_pos.0, 0),
                    ..*old(self)
                },
                PlayerMove::Down => *final(self) == GameState {
                    player_pos: (old(self).player_pos.0, 1),
                    ..*old(self)
                },
                PlayerMove::Quit => *final(self) == GameState { is_game_over: true, ..*old(self) },
            },
    {
        if self.is_game_over {
            return ;
        }
        match movement {
            PlayerMove::Up => {
                self.player_pos.1 = 0;
            },
            PlayerMove::Down => {
                self.player_pos.1 = 1;
            },
            PlayerMove::Quit => {
                self.is_game_over = true;
            },
        }
    }

    /// One tick: the score rises by one, both rows shift left by one cell,
    /// the freshly drawn cells enter on the right as
    /// [`resolve_new_cells`] describes, and the game ends on a collision.
    /// Nothing changes once the game is over. The caller passes the three
    /// random draws in.
    pub fn update_step(&mut self, new_top: bool, new_bottom: bool, drop_top: bool)
        requires
            old(self).wf(),
            old(self).score < u32::MAX,
        ensures
            final(self).wf(),
            old(self).is_game_over ==> *final(self) == *old(self),
            !old(self).is_game_over ==> {
                let cells = resolve_new_cells(new_top, new_bottom, drop_top);
                &&& final(self).top_row@ == old(self).top_row@.drop_first().push(cells.0)
                &&& final(self).bottom_row@ == old(self).bottom_row@.drop_first().push(cells.1)
                &&& final(self).score == old(self).score + 1
                &&& final(self).player_pos == old(self).player_pos
                &&& final(self).is_game_over == final(self).spec_collision()
            },
    {
        if self.is_game_over {
            return ;
        }
        self.score = self.score + 1;
        self.top_row.remove(0);
        self.bottom_row.remove(0);
        let (cell_top, cell_bottom) = if new_top && new_bottom {
            if drop_top {
                (false, true)
            } else {
                (true, false)
            }
        } else {
            (new_top, new_bottom)
        };
        self.top_row.push(cell_top);
        self.bottom_row.push(cell_bottom);
        proof {
            assert(self.top_row@ =~= old(self).top_row@.drop_first().push(cell_top));
            assert(self.bottom_row@ =~= old(self).bottom_row@.drop_first().push(cell_bottom));
        }
        if self.is_collision() {
            self.is_game_over = true;
        }
    }
}

/// The character one cell is drawn with: the player as `x`, an obstacle as
/// `-`, empty space as a blank.
pub open spec fn cell_char(obstacle: bool, player_here: bool) -> char {
    if player_here {
        'x'
    } else if obstacle {
        '-'
    } else {
        ' '
    }
}

/// Draws the rows of the game on a terminal; only the drawing itself is
/// done here, the printing stays with the caller.
pub struct GameRenderer;

impl GameRenderer {
    /// A renderer.
    pub fn new() -> (r: GameRenderer)
    {
        GameRenderer
    }

    /// One row's text: each cell as [`cell_char`] describes, with the
    /// player drawn at `player_x` if given.
    pub fn row_text(&self, row: &Vec<bool>, player_x: Option<usize>) -> (r: String)
        ensures
            r@.len() == row@.len(),
            forall|i: int|
                0 <= i < row@.len() ==> r@[i] == cell_char(
                    row@[i],
                    player_x matches Some(x) && x == i,
                ),
    {
        let mut out: Vec<char> = Vec::new();
        for i in 0..row.len()
            invariant
                out@.len() == i,
                forall|q: int|
                    0 <= q < i ==> out@[q] == cell_char(
                        row@[q],
                        player_x matches Some(x) && x == q,
                    ),
        {
            let here = match player_x {
                Some(x) => x == i,
                None => false,
            };
            if here {
                out.push('x');
            } else if row[i] {
                out.push('-');
            } else {
                out.push(' ');
            }
        }
        crate::text::chars_to_string(&out)
    }
}

/// One high score: who reached it, and what it was.
pub struct HiScore {
    pub name: String,
    pub score: u32,
}

/// The model of a high score.
pub struct HiScoreModel {
    pub name: Seq<char>,
    pub score: u32,
}

impl View for HiScore {
    type V = HiScoreModel;

    open spec fn view(&self) -> HiScoreModel {
        HiScoreModel { name: self.name@, score: self.score }
    }
}

/// The models of a score list, in order.
pub open spec fn score_views(ss: Seq<HiScore>) -> Seq<HiScoreModel> {
    ss.map_values(|h: HiScore| h@)
}

/// Scores are listed best first.
pub open spec fn sorted_desc(ss: Seq<HiScoreModel>) -> bool {
    forall|i: int, j: int| 0 <= i < j < ss.len() ==> (#[trigger] ss[i]).score >= (#[trigger] ss[j]).score
}

/// Whether a freshly reached score makes the top three: the board is not
/// full yet, or the score beats the lowest listed one.
pub fn is_high_score(scores: &Vec<HiScore>, score: u32) -> (r: bool)
    ensures
        r == (scores@.len() < 3 || score > scores@[scores@.len() - 1]@.score),
{
    if scores.len() < 3 {
        true
    } else {
        score > scores[scores.len() - 1].score
    }
}

/// A new score's place in a best-first list: after every score at least as
/// good, before the rest.
pub open spec fn spec_insert_at(ss: Seq<HiScoreModel>, score: u32) -> int
    decreases ss.len(),
{
    if ss.len() == 0 {
        0
    } else if ss[0].score >= score {
        1 + spec_insert_at(ss.drop_first(), score)
    } else {
        0
    }
}

/// Enters a new score into a best-first list and keeps the best three: the
/// new score goes after every score at least as good, and whatever falls
/// past the third place is dropped.
#[verifier::rlimit(50)]
pub fn record_score(scores: &mut Vec<HiScore>, name: String, score: u32)
    requires
        sorted_desc(score_views(old(scores)@)),
        old(scores)@.len() <= 3,
    ensures
        sorted_desc(score_views(final(scores)@)),
        final(scores)@.len() == if old(scores)@.len() + 1 < 3 {
            old(scores)@.len() + 1
        } else {
            3
        },
        score_views(final(scores)@) == score_views(old(scores)@).insert(
            spec_insert_at(score_views(old(scores)@), score),
            HiScoreModel { name: name@, score },
        ).take(final(scores)@.len() as int),
    {
        let ghost orig = score_views(scores@);
        proof {
            assert(orig.skip(0) =~= orig);
        }
        let mut at: usize = 0;
        while at < scores.len() && scores[at].score >= score
            invariant
                at <= scores@.len(),
                orig == score_views(scores@),
                forall|q: int| 0 <= q < at ==> (#[trigger] orig[q]).score >= score,
                spec_insert_at(orig, score) == spec_insert_at(orig.skip(at as int), score) + at,
            decreases scores@.len() - at,
        {
            proof {
                assert(orig.skip(at as int)[0] == orig[at as int]);
                assert(orig.skip(at as int).drop_first() =~= orig.skip(at as int + 1));
            }
            at = at + 1;
        }
        proof {
            if at < scores@.len() {
                assert(orig.skip(at as int)[0] == orig[at as int]);
            } else {
                assert(orig.skip(at as int).len() == 0);
            }
            assert(orig.skip(0) =~= orig);
            assert(spec_insert_at(orig, score) == at as int);
        }
        scores.insert(at, HiScore { name, score });
        let ghost inserted = score_views(scores@);
        proof {
            assert(inserted =~= orig.insert(
                spec_insert_at(orig, score),
                HiScoreModel { name: name@, score },
            ));
        }
        if scores.len() > 3 {
            scores.pop();
            proof {
                assert(score_views(scores@) =~= inserted.take(3));
            }
        } else {
            proof {
                assert(score_views(scores@) =~= inserted.take(scores@.len() as int));
            }
        }
        proof {
            let out = score_views(scores@);
            assert forall|i: int, j: int|
                0 <= i < j < out.len() implies (#[trigger] out[i]).score >= (
            #[trigger] out[j]).score by {
                let a = if i < at as int { orig[i] } else if i == at as int {
                    HiScoreModel { name: name@, score }
                } else {
                    orig[i - 1]
                };
                assert(out[i] == a);
                let b = if j < at as int { orig[j] } else if j == at as int {
                    HiScoreModel { name: name@, score }
                } else {
                    orig[j - 1]
                };
                assert(out[j] == b);
            }
        }
    }

/// The characters a name may keep: ASCII letters.
pub open spec fn is_ascii_letter(c: char) -> bool {
    ('a' <= c && c <= 'z') || ('A' <= c && c <= 'Z')
}

/// The letters of a sequence, everything else dropped.
pub open spec fn keep_letters(s: Seq<char>) -> Seq<char>
    decreases s.len(),
{
    if s.len() == 0 {
        Seq::empty()
    } else if is_ascii_letter(s.last()) {
        keep_letters(s.drop_last()).push(s.last())
    } else {
        keep_letters(s.drop_last())
    }
}

/// Keeps only the letters of a name; whether an empty result is replaced by
/// a generated one is the caller's affair.
pub fn sanitize_name(input: &str) -> (r: String)
    ensures
        r@ == keep_letters(input@),
{
    let chars = crate::text::str_chars(input);
    let mut out: Vec<char> = Vec::new();
    for i in 0..chars.len()
        invariant
            chars@ == input@,
            out@ == keep_letters(input@.take(i as int)),
    {
        proof {
            assert(input@.take(i as int + 1).drop_last() =~= input@.take(i as int));
            assert(input@.take(i as int + 1).last() == input@[i as int]);
        }
        let c = chars[i];
        if ('a' <= c && c <= 'z') || ('A' <= c && c <= 'Z') {
            out.push(c);
        }
    }
    proof {
        assert(input@.take(input@.len() as int) =~= input@);
    }
    crate::text::chars_to_string(&out)
}

/// The letter a generated name uses for one random draw.
pub open spec fn letter_for(d: u8) -> char {
    (('A' as u8) + (d % 26)) as char
}

/// A generated name: one capital letter per random draw, as [`letter_for`]
/// describes. The caller draws the randomness.
pub fn name_from_draws(draws: &Vec<u8>) -> (r: String)
    ensures
        r@.len() == draws@.len(),
        forall|i: int| 0 <= i < draws@.len() ==> r@[i] == letter_for(draws@[i]),
{
    let mut out: Vec<char> = Vec::new();
    for i in 0..draws.len()
        invariant
            out@.len() == i,
            forall|q: int| 0 <= q < i ==> out@[q] == letter_for(draws@[q]),
    {
        let d = draws[i] % 26;
        let c = (('A' as u8) + d) as char;
        out.push(c);
    }
    crate::text::chars_to_string(&out)
}


/// A starting obstacle row: the first eleven columns are kept clear so the
/// player has room, the rest are as drawn by the caller.
pub fn initial_row(draws: &Vec<bool>) -> (r: Vec<bool>)
    ensures
        r@.len() == draws@.len(),
        forall|i: int| 0 <= i < draws@.len() ==> r@[i] == (i > 10 && draws@[i]),
{
    let mut out: Vec<bool> = Vec::new();
    for i in 0..draws.len()
        invariant
            out@.len() == i,
            forall|q: int| 0 <= q < i ==> out@[q] == (q > 10 && draws@[q]),
    {
        out.push(i > 10 && draws[i]);
    }
    out
}


/// Whatever the filter keeps is a letter.
pub proof fn lemma_keep_letters_alpha(s: Seq<char>)
    ensures
        forall|i: int|
            0 <= i < keep_letters(s).len() ==> is_ascii_letter(#[trigger] keep_letters(s)[i]),
    decreases s.len(),
{
    if s.len() > 0 {
        lemma_keep_letters_alpha(s.drop_last());
        assert forall|i: int|
            0 <= i < keep_letters(s).len() implies is_ascii_letter(
            #[trigger] keep_letters(s)[i],
        ) by {
            let kept = keep_letters(s.drop_last());
            if i < kept.len() {
                assert(keep_letters(s)[i] == kept[i]);
            } else {
                assert(keep_letters(s)[i] == s.last());
            }
        }
    }
}

/// The filter leaves an all-letter sequence alone.
proof fn lemma_keep_letters_all_letters(s: Seq<char>)
    requires
        forall|i: int| 0 <= i < s.len() ==> is_ascii_letter(#[trigger] s[i]),
    ensures
        keep_letters(s) == s,
    decreases s.len(),
{
    if s.len() > 0 {
        assert forall|i: int|
            0 <= i < s.len() - 1 implies is_ascii_letter(#[trigger] s.drop_last()[i]) by {
            assert(s.drop_last()[i] == s[i]);
        }
        lemma_keep_letters_all_letters(s.drop_last());
        assert(is_ascii_letter(s[s.len() - 1]));
        assert(keep_letters(s) =~= s.drop_last().push(s.last()));
        assert(s.drop_last().push(s.last()) =~= s);
    }
}

/// Filtering a name is idempotent: filtering the filtered name returns it
/// unchanged.
pub proof fn lemma_keep_letters_idempotent(s: Seq<char>)
    ensures
        keep_letters(keep_letters(s)) == keep_letters(s),
{
    lemma_keep_letters_alpha(s);
    lemma_keep_letters_all_letters(keep_letters(s));
}

/// A generated letter is a capital letter.
pub proof fn lemma_letter_for_alpha(d: u8)
    ensures
        is_ascii_letter(letter_for(d)),
{
    assert(d % 26 < 26);
    assert('A' as u8 == 65);
    assert(letter_for(d) as int == 65 + (d % 26));
}

/// The name a player goes by: the input with everything but letters
/// dropped, or, when no letter is left, a name generated from the caller's
/// random draws, one capital letter each. Either way the name is non-empty
/// and all letters.
pub fn resolve_name(input: &str, draws: &Vec<u8>) -> (r: String)
    requires
        draws@.len() > 0,
    ensures
        keep_letters(input@).len() > 0 ==> r@ == keep_letters(input@),
        keep_letters(input@).len() == 0 ==> r@.len() == draws@.len() && (forall|i: int|
            0 <= i < draws@.len() ==> r@[i] == letter_for(draws@[i])),
        r@.len() > 0,
        forall|i: int| 0 <= i < r@.len() ==> is_ascii_letter(#[trigger] r@[i]),
{
    let filtered = sanitize_name(input);
    proof {
        lemma_keep_letters_alpha(input@);
    }
    if filtered.as_str().is_empty() {
        let generated = name_from_draws(draws);
        proof {
            assert forall|i: int| 0 <= i < generated@.len() implies is_ascii_letter(
                #[trigger] generated@[i],
            ) by {
                lemma_letter_for_alpha(draws@[i]);
            }
        }
        generated
    } else {
        filtered
    }
}

} // verus!
