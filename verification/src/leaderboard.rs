//! Leaderboard-facing pieces that live on plain values: the update
//! message, the refresh rate limiter, and the match-string renderer.
//! The rating arithmetic itself runs on floating point against the
//! database and stays outside the crate; it hands rounded ratings in
//! here for rendering.

use vstd::prelude::*;
use crate::text::{dec_digits, dec_int, i64_string, u64_string};
use crate::events::sort_placements_desc;

verus! {

/// The rating algorithms a leaderboard can be configured with.
#[derive(Clone, Copy, PartialEq, Eq, Structural)]
pub enum RatingAlgorithm {
    OpenSkill,
}

/// A request to a leaderboard task.
pub enum LeaderboardMessage {
    /// Rate a finished match: teams in placement order with the tie
    /// flags between adjacent placements.
    Update { teams: Vec<Vec<String>>, ties: Vec<bool> },
}

/// One rated player as the renderer sees them: rounded ratings only.
pub struct PlacementPlayer {
    pub name: String,
    pub new_rating: i64,
    pub old_rating: i64,
}

/// The rating delta as text: an explicit plus for gains.
pub open spec fn delta_text(d: int) -> Seq<char> {
    if d >= 0 {
        seq!['+'] + dec_digits(d as nat)
    } else {
        dec_int(d)
    }
}

/// One player's rendered entry: `name (new, +delta)`.
pub open spec fn player_text(name: Seq<char>, new_rating: int, old_rating: int) -> Seq<char> {
    name + " ("@ + dec_int(new_rating) + ", "@ + delta_text(new_rating - old_rating) + ")"@
}

/// A character the chat service reads as markdown.
pub open spec fn md_char(c: char) -> bool {
    c == '\\' || c == '*' || c == '_' || c == '~' || c == '`' || c == '>' || c == ':'
        || c == '#' || c == '-'
}

/// The text with every markdown character backslash-escaped.
pub open spec fn escaped(s: Seq<char>) -> Seq<char>
    decreases s.len(),
{
    if s.len() == 0 {
        Seq::empty()
    } else if md_char(s.last()) {
        escaped(s.drop_last()) + seq!['\\', s.last()]
    } else {
        escaped(s.drop_last()) + seq![s.last()]
    }
}

/// One participant's entry, escaped for the match log when asked.
pub open spec fn entry_text(p: PlacementPlayer, esc: bool) -> Seq<char> {
    player_text(
        if esc {
            escaped(p.name@)
        } else {
            p.name@
        },
        p.new_rating as int,
        p.old_rating as int,
    )
}

/// A team's entries separated by commas.
pub open spec fn team_text(team: Seq<PlacementPlayer>, esc: bool) -> Seq<char>
    decreases team.len(),
{
    if team.len() == 0 {
        Seq::empty()
    } else if team.len() == 1 {
        entry_text(team[0], esc)
    } else {
        team_text(team.drop_last(), esc) + ", "@ + entry_text(team.last(), esc)
    }
}

/// The plain blocks: one line per listed team, in list order. Every
/// listed team renders exactly once.
pub open spec fn blocks_plain(teams: Seq<Vec<PlacementPlayer>>, ord: Seq<int>, esc: bool) -> Seq<
    char,
>
    decreases ord.len(),
{
    if ord.len() == 0 {
        Seq::empty()
    } else {
        blocks_plain(teams, ord.drop_last(), esc) + team_text(teams[ord.last()]@, esc)
            + "\n"@
    }
}

/// The ordinal a placement renders with: a team tied with its
/// predecessor inherits the predecessor's ordinal.
pub open spec fn ord_rank(ties: Seq<bool>, k: int) -> nat
    decreases k,
    when 0 <= k
{
    if k == 0 {
        1
    } else if 0 <= k - 1 < ties.len() && ties[k - 1] {
        ord_rank(ties, k - 1)
    } else {
        (k + 1) as nat
    }
}

/// The ranked blocks: one line per team in the given order, each
/// carrying its tie-inherited ordinal. Every team renders exactly
/// once.
pub open spec fn blocks_ranked(
    teams: Seq<Vec<PlacementPlayer>>,
    ties: Seq<bool>,
    n: int,
    esc: bool,
) -> Seq<char>
    decreases n,
{
    if n <= 0 {
        Seq::empty()
    } else {
        blocks_ranked(teams, ties, n - 1, esc) + dec_digits(ord_rank(ties, n - 1)) + ". "@
            + team_text(teams[n - 1]@, esc) + "\n"@
    }
}

/// The flags of a tie vector, empty when none was given.
pub open spec fn ties_flags(ties: Option<Vec<bool>>) -> Seq<bool> {
    match ties {
        Some(tv) => tv@,
        None => Seq::empty(),
    }
}

/// The tie-ordered body: a pair renders as winner and loser (or under
/// a draw banner when tied); more teams render as ranked blocks with
/// tie-inherited ordinals.
pub open spec fn ties_body(
    teams: Seq<Vec<PlacementPlayer>>,
    ties: Option<Vec<bool>>,
    esc: bool,
) -> Seq<char> {
    let tq = ties_flags(ties);
    if teams.len() == 2 {
        if tq.len() >= 1 && tq[0] {
            "Draw\n"@ + team_text(teams[0]@, esc) + "\n"@ + team_text(teams[1]@, esc)
                + "\n"@
        } else {
            "Winner: "@ + team_text(teams[0]@, esc) + "\nLoser: "@ + team_text(
                teams[1]@,
                esc,
            ) + "\n"@
        }
    } else {
        blocks_ranked(teams, tq, teams.len() as int, esc)
    }
}

/// The score a team slot carries; slots past the list rank lowest.
pub open spec fn score_of(sc: Seq<i64>, t: int) -> i64 {
    if 0 <= t < sc.len() {
        sc[t]
    } else {
        i64::MIN
    }
}

/// The dash-joined score line, in ranking order.
pub open spec fn score_line(sc: Seq<i64>, ord: Seq<int>) -> Seq<char>
    decreases ord.len(),
{
    if ord.len() == 0 {
        Seq::empty()
    } else if ord.len() == 1 {
        dec_int(score_of(sc, ord[0]) as int)
    } else {
        score_line(sc, ord.drop_last()) + " - "@ + dec_int(score_of(sc, ord.last()) as int)
    }
}



/// Backslash-escape every markdown character of a name.
fn escape_markdown(s: &str) -> (r: String)
    ensures
        r@ == escaped(s@),
{
    proof {
        reveal_strlit("\\\\");
        reveal_strlit("\\*");
        reveal_strlit("\\_");
        reveal_strlit("\\~");
        reveal_strlit("\\`");
        reveal_strlit("\\>");
        reveal_strlit("\\:");
        reveal_strlit("\\#");
        reveal_strlit("\\-");
    }
    let mut r = String::new();
    let n = s.unicode_len();
    let mut i: usize = 0;
    proof {
        assert(s@.take(0) =~= Seq::<char>::empty());
    }
    while i < n
        invariant
            i <= n,
            n == s@.len(),
            r@ == escaped(s@.take(i as int)),
        decreases n - i,
    {
        proof {
            assert(s@.take(i + 1).drop_last() =~= s@.take(i as int));
            assert(s@.take(i + 1).last() == s@[i as int]);
        }
        let c = s.get_char(i);
        match c {
            '\\' => {
                r.append("\\\\");
                proof {
                    reveal_strlit("\\\\");
                    assert("\\\\"@ =~= seq!['\\', '\\']);
                }
            },
            '*' => {
                r.append("\\*");
                proof {
                    reveal_strlit("\\*");
                    assert("\\*"@ =~= seq!['\\', '*']);
                }
            },
            '_' => {
                r.append("\\_");
                proof {
                    reveal_strlit("\\_");
                    assert("\\_"@ =~= seq!['\\', '_']);
                }
            },
            '~' => {
                r.append("\\~");
                proof {
                    reveal_strlit("\\~");
                    assert("\\~"@ =~= seq!['\\', '~']);
                }
            },
            '`' => {
                r.append("\\`");
                proof {
                    reveal_strlit("\\`");
                    assert("\\`"@ =~= seq!['\\', '`']);
                }
            },
            '>' => {
                r.append("\\>");
                proof {
                    reveal_strlit("\\>");
                    assert("\\>"@ =~= seq!['\\', '>']);
                }
            },
            ':' => {
                r.append("\\:");
                proof {
                    reveal_strlit("\\:");
                    assert("\\:"@ =~= seq!['\\', ':']);
                }
            },
            '#' => {
                r.append("\\#");
                proof {
                    reveal_strlit("\\#");
                    assert("\\#"@ =~= seq!['\\', '#']);
                }
            },
            '-' => {
                r.append("\\-");
                proof {
                    reveal_strlit("\\-");
                    assert("\\-"@ =~= seq!['\\', '-']);
                }
            },
            _ => {
                let piece = s.substring_char(i, i + 1);
                r.append(piece);
                proof {
                    assert(piece@ =~= seq![s@[i as int]]);
                }
            },
        }
        proof {
            assert(r@ =~= escaped(s@.take(i + 1)));
        }
        i += 1;
    }
    proof {
        assert(s@.take(n as int) == s@);
    }
    r
}

/// Render one player, escaping the name for the match log when asked.
fn render_player(p: &PlacementPlayer, esc: bool) -> (r: String)
    ensures
        r@ == entry_text(*p, esc),
{
    proof {
        reveal_strlit(" (");
        reveal_strlit(", ");
        reveal_strlit(")");
        reveal_strlit("+");
        reveal_strlit("-");
    }
    let mut r = if esc {
        escape_markdown(p.name.as_str())
    } else {
        p.name.clone()
    };
    r.append(" (");
    let nr = i64_string(p.new_rating);
    r.append(nr.as_str());
    r.append(", ");
    let d: i128 = p.new_rating as i128 - p.old_rating as i128;
    if d >= 0 {
        r.append("+");
        let m = u64_string(d as u64);
        r.append(m.as_str());
    } else {
        let mag: u64 = (-d) as u64;
        r.append("-");
        let m = u64_string(mag);
        r.append(m.as_str());
    }
    r.append(")");
    proof {
        assert(r@ =~= entry_text(*p, esc));
    }
    r
}

/// Render a team: its entries separated by commas.
fn render_team(team: &Vec<PlacementPlayer>, esc: bool) -> (r: String)
    ensures
        r@ == team_text(team@, esc),
{
    proof {
        reveal_strlit(", ");
    }
    let mut r = String::new();
    let n = team.len();
    let mut j: usize = 0;
    proof {
        assert(team@.take(0) =~= Seq::<PlacementPlayer>::empty());
    }
    while j < n
        invariant
            j <= n,
            n == team@.len(),
            r@ == team_text(team@.take(j as int), esc),
        decreases n - j,
    {
        proof {
            assert(team@.take(j + 1).drop_last() =~= team@.take(j as int));
            assert(team@.take(j + 1).last() == team@[j as int]);
        }
        if j > 0 {
            r.append(", ");
        }
        let pt = render_player(&team[j], esc);
        r.append(pt.as_str());
        proof {
            if j == 0 {
                assert(r@ =~= team_text(team@.take(1), esc));
            } else {
                assert(r@ =~= team_text(team@.take(j + 1), esc));
            }
        }
        j += 1;
    }
    proof {
        assert(team@.take(n as int) == team@);
    }
    r
}

/// Render a match outcome for the match log and the room chat: with
/// scores the teams render once each, ranked by descending score
/// behind a dash-joined score line; with tie flags a pair renders as
/// winner and loser (or under a draw banner), and more teams render
/// as ordinal blocks whose ordinals are inherited across ties. The
/// first string escapes names for the match log; the second is plain
/// chat.
#[verifier::rlimit(100)]
pub fn match_string(
    teams: &Vec<Vec<PlacementPlayer>>,
    score: Option<Vec<i64>>,
    ties: Option<Vec<bool>>,
) -> (r: (String, String))
    ensures
        score is None ==> r.0@ == ties_body(teams@, ties, true) && r.1@ == ties_body(
            teams@,
            ties,
            false,
        ),
        score matches Some(sc) ==> exists|ord: Seq<int>|
            #![trigger score_line(sc@, ord)]
            {
                &&& ord.len() == teams@.len()
                &&& forall|x: int| 0 <= x < ord.len() ==> 0 <= #[trigger] ord[x] < teams@.len()
                &&& forall|x: int, y: int|
                    0 <= x < y < ord.len() ==> #[trigger] ord[x] != #[trigger] ord[y]
                &&& forall|x: int, y: int|
                    0 <= x < y < ord.len() ==> score_of(sc@, #[trigger] ord[x]) >= score_of(
                        sc@,
                        #[trigger] ord[y],
                    )
                &&& r.0@ == score_line(sc@, ord) + "\n"@ + blocks_plain(teams@, ord, true)
                &&& r.1@ == score_line(sc@, ord) + "\n"@ + blocks_plain(teams@, ord, false)
            },
{
    proof {
        reveal_strlit("\n");
        reveal_strlit(" - ");
        reveal_strlit(". ");
        reveal_strlit("Draw\n");
        reveal_strlit("Winner: ");
        reveal_strlit("\nLoser: ");
    }
    let mut body_d = String::new();
    let mut body_s = String::new();
    let n = teams.len();

    match &score {
        Some(sc) => {
            let mut rows: Vec<(i64, usize)> = Vec::new();
            let mut t: usize = 0;
            while t < n
                invariant
                    t <= n,
                    n == teams@.len(),
                    rows@.len() == t,
                    forall|x: int|
                        0 <= x < t ==> (#[trigger] rows@[x]) == (score_of(sc@, x), x as usize),
                decreases n - t,
            {
                let sv: i64 = if t < sc.len() {
                    sc[t]
                } else {
                    i64::MIN
                };
                rows.push((sv, t));
                t += 1;
            }
            let ghost rows0 = rows@;
            let sorted = sort_placements_desc(rows);
            proof {
                broadcast use vstd::seq_lib::group_to_multiset_ensures;

                assert(rows0.no_duplicates()) by {
                    assert forall|x: int, y: int|
                        0 <= x < y < rows0.len() implies rows0[x] != rows0[y] by {
                        assert(rows0[x].1 == x as usize && rows0[y].1 == y as usize);
                    }
                }
                rows0.lemma_multiset_has_no_duplicates();
                assert forall|x: (i64, usize)| #[trigger] sorted@.to_multiset().contains(
                    x,
                ) implies sorted@.to_multiset().count(x) == 1 by {}
                sorted@.lemma_multiset_has_no_duplicates_conv();
                assert forall|y: int| 0 <= y < sorted@.len() implies (#[trigger] sorted@[y])
                    == (score_of(sc@, sorted@[y].1 as int), sorted@[y].1) && sorted@[y].1
                    < n by {
                    assert(sorted@.to_multiset().contains(sorted@[y]));
                    assert(rows0.to_multiset().contains(sorted@[y]));
                    assert(rows0.contains(sorted@[y]));
                    let w = choose|w: int| 0 <= w < rows0.len() && rows0[w] == sorted@[y];
                    assert(rows0[w] == (score_of(sc@, w), w as usize));
                }
            }
            // the ranking and the score line
            let m = sorted.len();
            let mut order: Vec<usize> = Vec::new();
            let ghost mut ordg: Seq<int> = Seq::empty();
            let mut line = String::new();
            let mut y: usize = 0;
            proof {
                assert(line@ =~= score_line(sc@, ordg));
            }
            while y < m
                invariant
                    y <= m,
                    m == sorted@.len(),
                    m == n,
                    n == teams@.len(),
                    sorted@.no_duplicates(),
                    forall|z: int|
                        0 <= z < m ==> (#[trigger] sorted@[z]) == (score_of(
                            sc@,
                            sorted@[z].1 as int,
                        ), sorted@[z].1) && sorted@[z].1 < n,
                    crate::events::sorted_desc(sorted@),
                    order@.len() == y,
                    ordg.len() == y as int,
                    forall|z: int|
                        0 <= z < y ==> (#[trigger] ordg[z]) == sorted@[z].1 as int
                            && order@[z] == sorted@[z].1,
                    line@ == score_line(sc@, ordg),
                decreases m - y,
            {
                if y > 0 {
                    line.append(" - ");
                }
                let dtx = i64_string(sorted[y].0);
                line.append(dtx.as_str());
                order.push(sorted[y].1);
                proof {
                    let prev = ordg;
                    ordg = ordg.push(sorted@[y as int].1 as int);
                    assert(ordg.drop_last() =~= prev);
                    assert(score_of(sc@, ordg.last()) == sorted@[y as int].0);
                    if y == 0 {
                        assert(line@ =~= score_line(sc@, ordg));
                    } else {
                        assert(line@ =~= score_line(sc@, prev) + " - "@ + dec_int(
                            score_of(sc@, ordg.last()) as int,
                        ));
                        assert(line@ =~= score_line(sc@, ordg));
                    }
                }
                y += 1;
            }
            line.append("\n");
            body_d.append(line.as_str());
            body_s.append(line.as_str());

            // one plain block per ranked team
            let ghost head_d = body_d@;
            let ghost head_s = body_s@;
            let m2 = order.len();
            let mut x: usize = 0;
            proof {
                assert(ordg.take(0) =~= Seq::<int>::empty());
                assert(body_d@ =~= head_d + blocks_plain(teams@, ordg.take(0), true));
                assert(body_s@ =~= head_s + blocks_plain(teams@, ordg.take(0), false));
            }
            while x < m2
                invariant
                    x <= m2,
                    m2 == order@.len(),
                    m2 == ordg.len(),
                    n == teams@.len(),
                    forall|z: int|
                        0 <= z < m2 ==> 0 <= (#[trigger] ordg[z]) < n && order@[z] as int
                            == ordg[z],
                    body_d@ == head_d + blocks_plain(teams@, ordg.take(x as int), true),
                    body_s@ == head_s + blocks_plain(teams@, ordg.take(x as int), false),
                decreases m2 - x,
            {
                proof {
                    assert(ordg.take(x + 1).drop_last() =~= ordg.take(x as int));
                    assert(ordg.take(x + 1).last() == ordg[x as int]);
                }
                let ti = order[x];
                let block_d = render_team(&teams[ti], true);
                let block_s = render_team(&teams[ti], false);
                body_d.append(block_d.as_str());
                body_d.append("\n");
                body_s.append(block_s.as_str());
                body_s.append("\n");
                proof {
                    assert(body_d@ =~= head_d + blocks_plain(teams@, ordg.take(x + 1), true));
                    assert(body_s@ =~= head_s + blocks_plain(
                        teams@,
                        ordg.take(x + 1),
                        false,
                    ));
                }
                x += 1;
            }
            proof {
                assert(ordg.take(m2 as int) == ordg);
            }
            (body_d, body_s)
        },
        None => {
            if n == 2 {
                let tied: bool = match &ties {
                    Some(tv) => tv.len() >= 1 && tv[0],
                    None => false,
                };
                let t0_d = render_team(&teams[0], true);
                let t0_s = render_team(&teams[0], false);
                let t1_d = render_team(&teams[1], true);
                let t1_s = render_team(&teams[1], false);
                if tied {
                    body_d.append("Draw\n");
                    body_d.append(t0_d.as_str());
                    body_d.append("\n");
                    body_d.append(t1_d.as_str());
                    body_d.append("\n");
                    body_s.append("Draw\n");
                    body_s.append(t0_s.as_str());
                    body_s.append("\n");
                    body_s.append(t1_s.as_str());
                    body_s.append("\n");
                } else {
                    body_d.append("Winner: ");
                    body_d.append(t0_d.as_str());
                    body_d.append("\nLoser: ");
                    body_d.append(t1_d.as_str());
                    body_d.append("\n");
                    body_s.append("Winner: ");
                    body_s.append(t0_s.as_str());
                    body_s.append("\nLoser: ");
                    body_s.append(t1_s.as_str());
                    body_s.append("\n");
                }
                proof {
                    assert(body_d@ =~= ties_body(teams@, ties, true));
                    assert(body_s@ =~= ties_body(teams@, ties, false));
                }
                (body_d, body_s)
            } else {
                let ghost tq = ties_flags(ties);
                let mut rank: u64 = 1;
                let mut x: usize = 0;
                proof {
                    assert(body_d@ =~= blocks_ranked(teams@, tq, 0, true));
                    assert(body_s@ =~= blocks_ranked(teams@, tq, 0, false));
                }
                while x < n
                    invariant
                        x <= n,
                        n == teams@.len(),
                        tq == ties_flags(ties),
                        x >= 1 ==> rank as nat == ord_rank(tq, x - 1),
                        body_d@ == blocks_ranked(teams@, tq, x as int, true),
                        body_s@ == blocks_ranked(teams@, tq, x as int, false),
                    decreases n - x,
                {
                    let tied_prev: bool = if x == 0 {
                        false
                    } else {
                        match &ties {
                            Some(tv) => x - 1 < tv.len() && tv[x - 1],
                            None => false,
                        }
                    };
                    if x == 0 {
                        rank = 1;
                    } else if !tied_prev {
                        rank = (x + 1) as u64;
                    }
                    proof {
                        assert(rank as nat == ord_rank(tq, x as int));
                    }
                    let rtx = u64_string(rank);
                    let block_d = render_team(&teams[x], true);
                    let block_s = render_team(&teams[x], false);
                    body_d.append(rtx.as_str());
                    body_d.append(". ");
                    body_d.append(block_d.as_str());
                    body_d.append("\n");
                    body_s.append(rtx.as_str());
                    body_s.append(". ");
                    body_s.append(block_s.as_str());
                    body_s.append("\n");
                    proof {
                        assert(body_d@ =~= blocks_ranked(teams@, tq, x + 1, true));
                        assert(body_s@ =~= blocks_ranked(teams@, tq, x + 1, false));
                    }
                    x += 1;
                }
                proof {
                    assert(body_d@ =~= ties_body(teams@, ties, true));
                    assert(body_s@ =~= ties_body(teams@, ties, false));
                }
                (body_d, body_s)
            }
        },
    }
}

/// The leaderboard refresh limiter: a refresh may run at once when
/// the lane is free; otherwise one refresh is queued and runs when
/// the cool-down timer fires. At most one refresh per cool-down.
pub struct RefreshLimiter {
    /// The lane is free: a refresh may run immediately.
    pub can_update: bool,
    /// A refresh is queued for the next timer expiry.
    pub needs_update: bool,
}

impl RefreshLimiter {
    /// A fresh limiter: free lane, nothing queued.
    pub fn new() -> (r: RefreshLimiter)
        ensures
            r.can_update,
            !r.needs_update,
    {
        RefreshLimiter { can_update: true, needs_update: false }
    }

    /// An update was applied. Returns whether to refresh the board now
    /// and whether to arm the cool-down timer.
    pub fn on_update(&mut self) -> (r: (bool, bool))
        ensures
            r.0 == old(self).can_update,
            r.1 == old(self).can_update,
            old(self).can_update ==> !final(self).can_update && final(self).needs_update
                == old(self).needs_update,
            !old(self).can_update ==> final(self).needs_update && final(self).can_update
                == old(self).can_update,
    {
        if self.can_update {
            self.can_update = false;
            (true, true)
        } else {
            self.needs_update = true;
            (false, false)
        }
    }

    /// The cool-down timer fired. Returns whether to refresh now and
    /// whether to re-arm the cool-down.
    pub fn on_timer(&mut self) -> (r: (bool, bool))
        ensures
            r.0 == old(self).needs_update,
            r.1 == old(self).needs_update,
            old(self).needs_update ==> !final(self).needs_update && final(self).can_update
                == old(self).can_update,
            !old(self).needs_update ==> final(self).can_update && final(self).needs_update
                == old(self).needs_update,
    {
        if self.needs_update {
            self.needs_update = false;
            (true, true)
        } else {
            self.can_update = true;
            (false, false)
        }
    }
}

} // verus!
