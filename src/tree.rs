//! The tree builder: a stack of names indexed by depth, updated once per
//! parsed line, that yields the path of each entry to create.

use vstd::prelude::*;
use vstd::string::StringExecFns;

use crate::line::{Blueprint, BlueprintType, SEPARATOR};

verus! {

/// Why a blueprint line cannot be placed in the tree.
#[derive(Debug, Clone, Copy, PartialEq, Eq, Structural)]
pub enum TreeError {
    /// The indentation is not a whole number of levels.
    UnevenIndent,
    /// The line is more than one level deeper than the one before it, or the
    /// first entry is indented.
    SkippedLevel,
    /// The line names nothing.
    EmptyName,
}

/// An entry to create, by its path relative to the destination.
#[derive(Debug)]
pub struct Entry {
    pub segments: Vec<String>,
    pub kind: BlueprintType,
}

/// The texts of a sequence of strings.
pub open spec fn texts(v: Seq<String>) -> Seq<Seq<char>> {
    v.map_values(|s: String| s@)
}

impl Entry {
    /// The entry's path, one name per level.
    pub open spec fn path(&self) -> Seq<Seq<char>> {
        texts(self.segments@)
    }
}

/// The new indent unit and the level of a line with `d` leading spaces,
/// where `unit` spaces make one level (0: no line was indented yet).
pub open spec fn level_of(unit: nat, d: nat) -> Option<(nat, nat)> {
    if d == 0 {
        Some((unit, 0))
    } else if unit == 0 {
        Some((d, 1))
    } else if d % unit == 0 {
        Some((unit, d / unit))
    } else {
        None
    }
}

/// The stack and unit after a line with `name` and `d` leading spaces, or
/// why the line does not fit.
pub open spec fn step_spec(stack: Seq<Seq<char>>, unit: nat, name: Seq<char>, d: nat) -> Result<
    (Seq<Seq<char>>, nat),
    TreeError,
> {
    match level_of(unit, d) {
        None => Err(TreeError::UnevenIndent),
        Some((u, level)) => if level > stack.len() {
            Err(TreeError::SkippedLevel)
        } else if name.len() == 0 {
            Err(TreeError::EmptyName)
        } else {
            Ok((stack.take(level as int).push(name), u))
        },
    }
}

/// A whole run over lines given as (name, leading spaces, kind): the entries
/// made, in order, with the final stack and unit; or the first error.
pub open spec fn run_spec(lines: Seq<(Seq<char>, nat, BlueprintType)>) -> Result<
    (Seq<(Seq<Seq<char>>, BlueprintType)>, Seq<Seq<char>>, nat),
    TreeError,
>
    decreases lines.len(),
{
    if lines.len() == 0 {
        Ok((Seq::empty(), Seq::empty(), 0))
    } else {
        match run_spec(lines.drop_last()) {
            Err(e) => Err(e),
            Ok((made, stack, unit)) => match step_spec(
                stack,
                unit,
                lines.last().0,
                lines.last().1,
            ) {
                Err(e) => Err(e),
                Ok((st, u)) => Ok((made.push((st, lines.last().2)), st, u)),
            },
        }
    }
}

/// The line that an entry of a listing stands for, indented by `unit`
/// spaces per level below the destination.
pub open spec fn line_of(entry: (Seq<Seq<char>>, BlueprintType), unit: nat) -> (
    Seq<char>,
    nat,
    BlueprintType,
) {
    (entry.0.last(), ((entry.0.len() - 1) * unit) as nat, entry.1)
}

proof fn lemma_run_shape(lines: Seq<(Seq<char>, nat, BlueprintType)>)
    requires
        run_spec(lines) is Ok,
    ensures
        ({
            let (made, stack, unit) = run_spec(lines)->Ok_0;
            &&& made.len() == lines.len()
            &&& lines.len() > 0 ==> stack.len() > 0 && made.last().0 == stack
            &&& unit == 0 ==> forall|i: int| 0 <= i < lines.len() ==> #[trigger] lines[i].1 == 0
            &&& unit == 0 ==> forall|i: int| 0 <= i < lines.len() ==> #[trigger] made[i].0.len() == 1
            &&& forall|i: int|
                0 <= i < lines.len() ==> #[trigger] made[i].0.len() > 0 && line_of(made[i], unit)
                    == lines[i]
        }),
    decreases lines.len(),
{
    if lines.len() > 0 {
        let prev = lines.drop_last();
        lemma_run_shape(prev);
        let (made, stack, unit) = run_spec(prev)->Ok_0;
        let (name, d, kind) = lines.last();
        let (u, level) = level_of(unit, d)->0;
        let (made2, st, u2) = run_spec(lines)->Ok_0;
        assert(u2 == u);
        if d != 0 && unit != 0 {
            vstd::arithmetic::div_mod::lemma_fundamental_div_mod(d as int, unit as int);
            assert(level * unit == d) by (nonlinear_arith)
                requires
                    d % unit == 0,
                    d == unit * (d / unit) + d % unit,
                    level == d / unit,
            ;
        }
        assert(st.len() == level + 1);
        assert(level * u == d) by (nonlinear_arith)
            requires
                d == 0 ==> level == 0,
                d != 0 && unit == 0 ==> level == 1 && u == d,
                d != 0 && unit != 0 ==> level * unit == d && u == unit,
        ;
        assert(made2.last().0 == st);
        assert(line_of(made2.last(), u) == lines.last());
        assert forall|i: int| 0 <= i < lines.len() implies #[trigger] made2[i].0.len() > 0
            && line_of(made2[i], u) == lines[i] by {
            if i < prev.len() {
                assert(lines[i] == prev[i]);
                if unit == 0 {
                    assert(prev[i].1 == 0);
                    let len = made[i].0.len();
                    assert(len == 1);
                    assert((len - 1) * u == 0) by (nonlinear_arith)
                        requires
                            len == 1,
                    ;
                } else {
                    assert(u == unit);
                }
            } else {
                assert(i == prev.len());
            }
        }
        if u == 0 {
            assert(d == 0 && unit == 0);
            assert forall|i: int| 0 <= i < lines.len() implies #[trigger] made2[i].0.len() == 1 by {
                if i < prev.len() {
                    assert(made2[i] == made[i]);
                }
            }
        }
        if u == 0 {
            assert forall|i: int| 0 <= i < lines.len() implies #[trigger] lines[i].1 == 0 by {
                if i < prev.len() {
                    assert(lines[i] == prev[i]);
                }
            }
        }
    }
}

/// Round trip: the entries of a successful run, listed in the order they
/// were made and read back as lines (the last segment as name, the level
/// times the indent unit as leading spaces, the same kind), give back
/// exactly the lines of the run.
pub proof fn lemma_round_trip(lines: Seq<(Seq<char>, nat, BlueprintType)>)
    requires
        run_spec(lines) is Ok,
    ensures
        ({
            let (made, stack, unit) = run_spec(lines)->Ok_0;
            made.map_values(|e: (Seq<Seq<char>>, BlueprintType)| line_of(e, unit)) == lines
        }),
{
    lemma_run_shape(lines);
    let (made, stack, unit) = run_spec(lines)->Ok_0;
    assert(made.map_values(|e: (Seq<Seq<char>>, BlueprintType)| line_of(e, unit)) =~= lines);
}

/// The segments joined by the separator.
pub open spec fn joined(segs: Seq<Seq<char>>) -> Seq<char>
    decreases segs.len(),
{
    if segs.len() == 0 {
        Seq::empty()
    } else if segs.len() == 1 {
        segs[0]
    } else {
        joined(segs.drop_last()) + seq![SEPARATOR] + segs.last()
    }
}

fn copy_names(v: &Vec<String>) -> (r: Vec<String>)
    ensures
        texts(r@) == texts(v@),
{
    let mut out: Vec<String> = Vec::new();
    let mut i: usize = 0;
    while i < v.len()
        invariant
            i <= v.len(),
            out.len() == i,
            texts(out@) =~= texts(v@.take(i as int)),
        decreases v.len() - i,
    {
        let ghost before = out@;
        let s = v[i].as_str().to_owned();
        out.push(s);
        proof {
            assert(texts(out@)[i as int] == v@[i as int]@);
            assert forall|j: int| 0 <= j < i implies texts(out@)[j] == v@[j]@ by {
                assert(texts(before)[j] == texts(v@.take(i as int))[j]);
            }
        }
        i += 1;
        assert(texts(out@) =~= texts(v@.take(i as int)));
    }
    assert(v@.take(i as int) =~= v@);
    out
}

/// The relative path of `segs`, joined by the separator.
pub fn join_segments(segs: &Vec<String>) -> (r: String)
    ensures
        r@ == joined(texts(segs@)),
{
    let mut out = String::new();
    let mut i: usize = 0;
    while i < segs.len()
        invariant
            i <= segs.len(),
            out@ == joined(texts(segs@.take(i as int))),
        decreases segs.len() - i,
    {
        if i > 0 {
            proof {
                reveal_strlit("/");
            }
            out.append("/");
        }
        out.append(segs[i].as_str());
        proof {
            assert(texts(segs@.take(i + 1)).drop_last() =~= texts(segs@.take(i as int)));
        }
        i += 1;
    }
    assert(segs@.take(i as int) =~= segs@);
    out
}

/// The names chosen for each level of the tree being built.
#[derive(Debug)]
pub struct PathStack {
    /// `segments[d]` is the name at level `d`.
    pub segments: Vec<String>,
    /// The level of the last line placed.
    pub current_depth: usize,
    /// Spaces per level, 0 until a line is indented.
    pub unit: usize,
}

impl PathStack {
    /// The stack holds exactly the levels up to the current one.
    pub open spec fn wf(&self) -> bool {
        if self.segments.len() == 0 {
            self.current_depth == 0
        } else {
            self.segments.len() == self.current_depth + 1
        }
    }

    pub open spec fn names(&self) -> Seq<Seq<char>> {
        texts(self.segments@)
    }

    pub fn new() -> (r: PathStack)
        ensures
            r.wf(),
            r.names().len() == 0,
            r.unit == 0,
    {
        PathStack { segments: Vec::new(), current_depth: 0, unit: 0 }
    }

    /// Places one parsed line: replaces the name at its level and drops the
    /// deeper ones, and returns the entry's path. On error the stack is left
    /// as it was.
    pub fn step(&mut self, line: &Blueprint) -> (r: Result<Entry, TreeError>)
        requires
            old(self).wf(),
        ensures
            final(self).wf(),
            match step_spec(
                old(self).names(),
                old(self).unit as nat,
                line.name@,
                line.depth_level as nat,
            ) {
                Ok((stack, unit)) => {
                    &&& r matches Ok(e)
                    &&& e.path() == stack
                    &&& e.kind == line.pattern_type
                    &&& final(self).names() == stack
                    &&& final(self).unit == unit
                    &&& final(self).segments.len() == final(self).current_depth + 1
                },
                Err(err) => {
                    &&& r matches Err(x)
                    &&& x == err
                    &&& *final(self) == *old(self)
                },
            },
    {
        let d = line.depth_level;
        let (unit, level): (usize, usize) = if d == 0 {
            (self.unit, 0)
        } else if self.unit == 0 {
            (d, 1)
        } else if d % self.unit == 0 {
            (self.unit, d / self.unit)
        } else {
            return Err(TreeError::UnevenIndent);
        };
        if level > self.segments.len() {
            return Err(TreeError::SkippedLevel);
        }
        if line.name.as_str().is_empty() {
            return Err(TreeError::EmptyName);
        }
        let ghost old_segs = self.segments@;
        let name = line.name.as_str().to_owned();
        if self.segments.len() == 0 {
            self.segments.push(name);
        } else if level == self.current_depth {
            self.segments[level] = name;
        } else if level == self.current_depth + 1 {
            self.segments.push(name);
            self.current_depth += 1;
        } else {
            while self.current_depth > level
                invariant
                    level <= self.current_depth,
                    self.current_depth < old_segs.len(),
                    self.segments@ == old_segs.take(self.current_depth + 1),
                decreases self.current_depth,
            {
                self.segments.pop();
                self.current_depth -= 1;
            }
            self.segments[level] = name;
        }
        self.unit = unit;
        proof {
            assert(self.segments@ =~= old_segs.take(level as int).push(name));
            assert(texts(self.segments@) =~= texts(old_segs).take(level as int).push(line.name@));
        }
        Ok(Entry { segments: copy_names(&self.segments), kind: line.pattern_type })
    }
}

} // verus!
