use vstd::prelude::*;

use crate::error::LogError;
use crate::segment_id::{
    decimal, log_suffix, next_pos_of, parse_filename, push_decimal, segment_id_from_filename,
};

verus! {

/// The name of a segment without its file suffix: `{position}_{generation}`.
pub open spec fn segment_name_of(pos: u64, gen: u64) -> Seq<char> {
    decimal(pos as nat) + seq!['_'] + decimal(gen as nat)
}

/// The segment name `{position}_{generation}`.
pub fn get_segment_name(pos: u64, gen: u64) -> (r: String)
    ensures
        r@ == segment_name_of(pos, gen),
{
    let mut r = String::new();
    push_decimal(&mut r, pos);
    let sep = "_";
    proof {
        reveal_strlit("_");
        assert(sep@ =~= seq!['_']);
    }
    r.append(sep);
    push_decimal(&mut r, gen);
    assert(r@ =~= segment_name_of(pos, gen));
    r
}

/// The filename of a segment name: the name with the `.log` suffix.
pub fn name_to_filename(name: &str) -> (r: String)
    ensures
        r@ == name@ + log_suffix(),
{
    let suffix = ".log";
    proof {
        reveal_strlit(".log");
        assert(suffix@ =~= log_suffix());
    }
    let mut r = name.to_owned();
    r.append(suffix);
    r
}

/// The name of the segment that follows `cur_name` by position, with the
/// same generation.
pub fn next_pos_name(cur_name: &str) -> (r: Result<String, LogError>)
    ensures
        match parse_filename(cur_name@ + log_suffix()) {
            Err(e) => r == Err::<String, LogError>(e),
            Ok(id) => if id.pos == u64::MAX {
                r == Err::<String, LogError>(LogError::OutOfCapacity)
            } else {
                r is Ok && r->Ok_0@ == segment_name_of(next_pos_of(id).pos, next_pos_of(id).gen)
            },
        },
{
    let filename = name_to_filename(cur_name);
    let id = match segment_id_from_filename(filename.as_str()) {
        Ok(id) => id,
        Err(e) => {
            return Err(e);
        },
    };
    if id.pos == u64::MAX {
        return Err(LogError::OutOfCapacity);
    }
    Ok(get_segment_name(id.pos + 1, id.gen))
}

} // verus!
