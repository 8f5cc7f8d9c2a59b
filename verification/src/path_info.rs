//! The outcome of a successful path search, and the letter the reindeer
//! writes about it.
use vstd::prelude::*;

use crate::coordinate::Coordinate;
use crate::text::{append_usize, nat_to_decimal};

verus! {

/// The best paths found through a maze and their cost.
pub struct PathInfo {
    paths: Vec<Vec<Coordinate>>,
    score: usize,
}

impl PathInfo {
    /// The tiles of each path, from start to end.
    pub closed spec fn paths(&self) -> Seq<Seq<Coordinate>> {
        self.paths.deep_view()
    }

    /// The cost of the paths.
    pub closed spec fn score(&self) -> usize {
        self.score
    }

    pub fn new_gd(paths: Vec<Vec<Coordinate>>, score: usize) -> (p: PathInfo)
        ensures
            p.paths() == paths.deep_view(),
            p.score() == score,
    {
        PathInfo { paths, score }
    }

    pub fn rust_get_paths(&self) -> (p: &Vec<Vec<Coordinate>>)
        ensures
            p.deep_view() == self.paths(),
    {
        &self.paths
    }

    pub fn rust_get_score(&self) -> (s: usize)
        ensures
            s == self.score(),
    {
        self.score
    }
}

/// The letter for a search that found no path.
pub open spec fn failed_attempt_mail() -> Seq<char> {
    "Dear [i]Player[/i],\n\nDue to circumstances out of my control, I was unfortunately not able to find a path to the goal...\nSorry for the inconvenience.\n\nSincerly,\n- [i]Reindeer[/i]\n        "@
}

/// The sentence about how many paths were found.
pub open spec fn paths_comment(n_paths: nat) -> Seq<char> {
    if n_paths > 1 {
        "I found multiple paths to the goal - "@ + nat_to_decimal(n_paths) + " to be specific!"@
    } else {
        "I found a path to the goal!"@
    }
}

/// The letter for found paths: the number of paths, the number of steps of
/// the first one (tiles minus one, at least zero) and the cost; or the
/// failed-attempt letter when there are no paths.
pub open spec fn path_mail(paths: Seq<Seq<Coordinate>>, score: nat) -> Seq<char> {
    if paths.len() == 0 {
        failed_attempt_mail()
    } else {
        let n_steps: nat = if paths[0].len() >= 1 { (paths[0].len() - 1) as nat } else { 0 };
        "Dear [i]Player[/i],\n\n"@ + paths_comment(paths.len()) + "\nI took a total of "@
            + nat_to_decimal(n_steps) + " steps, and the total cost to get there was "@
            + nat_to_decimal(score) + ".\n\nSincerly,\n- [i]Reindeer[/i]\n            "@
    }
}

/// The letter counts the paths it reports: with exactly one path it opens
/// with "I found a path to the goal!", and with `n` paths for any `n` of two
/// or more with "I found multiple paths to the goal - `n` to be specific!",
/// each sentence ending its line.
pub proof fn law_letter_counts_paths(paths: Seq<Seq<Coordinate>>, score: nat)
    ensures
        paths.len() == 1 ==> ("Dear [i]Player[/i],\n\n"@ + "I found a path to the goal!"@
            + "\n"@).is_prefix_of(path_mail(paths, score)),
        paths.len() >= 2 ==> ("Dear [i]Player[/i],\n\n"@ + "I found multiple paths to the goal - "@
            + nat_to_decimal(paths.len()) + " to be specific!"@ + "\n"@).is_prefix_of(
            path_mail(paths, score),
        ),
{
    if paths.len() > 0 {
        reveal_strlit("\nI took a total of ");
        reveal_strlit("\n");
        let n_steps: nat = if paths[0].len() >= 1 { (paths[0].len() - 1) as nat } else { 0 };
        let head = "Dear [i]Player[/i],\n\n"@ + paths_comment(paths.len());
        let tail = "\nI took a total of "@ + nat_to_decimal(n_steps)
            + " steps, and the total cost to get there was "@ + nat_to_decimal(score)
            + ".\n\nSincerly,\n- [i]Reindeer[/i]\n            "@;
        assert(path_mail(paths, score) =~= head + tail);
        let pre = head + "\n"@;
        assert(tail[0] == '\n');
        assert((head + tail).subrange(0, pre.len() as int) =~= pre);
        assert((head + tail).take(pre.len() as int) =~= pre);
        assert(pre.is_prefix_of(path_mail(paths, score)));
        if paths.len() == 1 {
            assert(pre =~= "Dear [i]Player[/i],\n\n"@ + "I found a path to the goal!"@ + "\n"@);
        } else {
            assert(pre =~= "Dear [i]Player[/i],\n\n"@ + "I found multiple paths to the goal - "@
                + nat_to_decimal(paths.len()) + " to be specific!"@ + "\n"@);
        }
    }
}

/// The letter for a search that found no path.
pub fn generate_mail_for_failed_attempt() -> (s: String)
    ensures
        s@ == failed_attempt_mail(),
{
    String::from_str(
        "Dear [i]Player[/i],\n\nDue to circumstances out of my control, I was unfortunately not able to find a path to the goal...\nSorry for the inconvenience.\n\nSincerly,\n- [i]Reindeer[/i]\n        ",
    )
}

/// Something the reindeer can write a letter about.
pub trait IGenerateMail {
    fn generate_mail(&self) -> String;
}

impl IGenerateMail for PathInfo {
    fn generate_mail(&self) -> (s: String)
        ensures
            s@ == path_mail(self.paths(), self.score() as nat),
    {
        let n_paths = self.paths.len();
        if n_paths == 0 {
            return generate_mail_for_failed_attempt();
        }
        let n_steps: usize = self.paths[0].len();
        let steps: usize = if n_steps >= 1 { n_steps - 1 } else { 0 };
        let mut s = String::from_str("Dear [i]Player[/i],\n\n");
        if n_paths > 1 {
            s.append("I found multiple paths to the goal - ");
            append_usize(&mut s, n_paths);
            s.append(" to be specific!");
        } else {
            s.append("I found a path to the goal!");
        }
        s.append("\nI took a total of ");
        append_usize(&mut s, steps);
        s.append(" steps, and the total cost to get there was ");
        append_usize(&mut s, self.score);
        s.append(".\n\nSincerly,\n- [i]Reindeer[/i]\n            ");
        proof {
            assert(self.paths()[0].len() == self.paths@[0]@.len());
        }
        assert(s@ =~= path_mail(self.paths(), self.score() as nat));
        s
    }
}

impl IGenerateMail for Option<PathInfo> {
    fn generate_mail(&self) -> (s: String)
        ensures
            s@ == match self {
                Some(p) => path_mail(p.paths(), p.score() as nat),
                None => failed_attempt_mail(),
            },
    {
        match self {
            Some(some) => some.generate_mail(),
            None => generate_mail_for_failed_attempt(),
        }
    }
}

} // verus!
