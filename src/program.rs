//! Program images: comma-separated signed integers.
use vstd::prelude::*;
use vstd::string::StringSliceAdditionalSpecFns;

use crate::text::{integer_in, parse_integer, split_fields, ParseError};

verus! {

/// The capacity of a loaded program's memory.
pub const MEM_SIZE: usize = 1000000;

/// The cells that a list of fields spells, where every field is an integer
/// that fits a cell.
pub open spec fn parse_cells(fs: Seq<Seq<u8>>) -> Option<Seq<i64>>
    decreases fs.len(),
{
    if fs.len() == 0 {
        Some(Seq::empty())
    } else {
        match (parse_cells(fs.drop_last()), integer_in(fs.last(), i64::MIN as int, i64::MAX as int)) {
            (Some(v), Some(x)) => Some(v.push(x as i64)),
            _ => None,
        }
    }
}

/// The program image that `text` spells.
pub open spec fn program_of(text: Seq<u8>) -> Option<Seq<i64>> {
    parse_cells(split_fields(text, 44))
}

/// The cells of `cells` followed by zeros up to `MEM_SIZE` cells.
pub open spec fn padded(cells: Seq<i64>) -> Seq<i64> {
    if cells.len() >= MEM_SIZE {
        cells
    } else {
        cells + Seq::new((MEM_SIZE - cells.len()) as nat, |i: int| 0i64)
    }
}

/// The fields of `b` between commas, read as cells.
pub fn parse_cells_in(b: &[u8]) -> (r: Result<Vec<i64>, ParseError>)
    ensures
        match r {
            Ok(v) => program_of(b@) == Some(v@),
            Err(e) => program_of(b@) is None && e == ParseError::InvalidInteger,
        },
{
    let mut values: Vec<i64> = Vec::new();
    let mut ok = true;
    let ghost mut done: Seq<Seq<u8>> = Seq::empty();
    let mut start: usize = 0;
    let mut i: usize = 0;
    assert(b@.subrange(0, 0) =~= Seq::<u8>::empty());
    while i < b.len()
        invariant
            start <= i <= b@.len(),
            split_fields(b@.subrange(0, i as int), 44) == done.push(
                b@.subrange(start as int, i as int),
            ),
            ok ==> parse_cells(done) == Some(values@),
            !ok ==> parse_cells(done) is None,
        decreases b@.len() - i,
    {
        let ghost cur = b@.subrange(start as int, i as int);
        assert(b@.subrange(0, i + 1).drop_last() =~= b@.subrange(0, i as int));
        if b[i] == 44 {
            if ok {
                match parse_integer(b, start, i, i64::MIN, i64::MAX) {
                    Some(x) => {
                        values.push(x);
                    },
                    None => {
                        ok = false;
                    },
                }
            }
            proof {
                assert(done.push(cur).drop_last() =~= done);
                done = done.push(cur);
            }
            start = i + 1;
            assert(b@.subrange(start as int, start as int) =~= Seq::<u8>::empty());
        } else {
            assert(b@.subrange(start as int, i + 1) =~= cur.push(b@[i as int]));
            assert(done.push(cur).update(done.len() as int, cur.push(b@[i as int])) =~= done.push(
                b@.subrange(start as int, i + 1),
            ));
        }
        i = i + 1;
    }
    assert(b@.subrange(0, i as int) =~= b@);
    let ghost last = b@.subrange(start as int, i as int);
    assert(done.push(last).drop_last() =~= done);
    if !ok {
        return Err(ParseError::InvalidInteger);
    }
    match parse_integer(b, start, i, i64::MIN, i64::MAX) {
        Some(x) => {
            values.push(x);
            Ok(values)
        },
        None => Err(ParseError::InvalidInteger),
    }
}

/// The program image that `prog` spells, exactly as many cells as fields.
pub fn parse_program(prog: &str) -> (r: Result<Vec<i64>, ParseError>)
    ensures
        match r {
            Ok(v) => program_of(prog.spec_bytes()) == Some(v@),
            Err(e) => program_of(prog.spec_bytes()) is None && e == ParseError::InvalidInteger,
        },
{
    parse_cells_in(prog.as_bytes())
}

/// The memory that `prog` loads into: its cells, then zeros up to `MEM_SIZE` cells.
pub fn load_program(prog: &str) -> (r: Result<Vec<i64>, ParseError>)
    ensures
        match r {
            Ok(v) => exists|p: Seq<i64>|
                program_of(prog.spec_bytes()) == Some(p) && v@ == #[trigger] padded(p),
            Err(e) => program_of(prog.spec_bytes()) is None && e == ParseError::InvalidInteger,
        },
{
    let mut mem = match parse_program(prog) {
        Ok(v) => v,
        Err(e) => return Err(e),
    };
    let ghost p = mem@;
    if mem.len() < MEM_SIZE {
        while mem.len() < MEM_SIZE
            invariant
                p.len() <= mem@.len() <= MEM_SIZE,
                mem@.subrange(0, p.len() as int) == p,
                forall|k: int| p.len() <= k < mem@.len() ==> mem@[k] == 0,
            decreases MEM_SIZE - mem@.len(),
        {
            mem.push(0);
        }
        assert(mem@ =~= padded(p));
    }
    assert(mem@ == padded(p));
    Ok(mem)
}

} // verus!
