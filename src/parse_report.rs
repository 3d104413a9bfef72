//! The verdict on a parse: success, or one message listing every parse error.
use vstd::prelude::*;
use crate::display::{decimal, push_decimal};
use crate::vertex_manager::join_lines;

verus! {

broadcast use vstd::std_specs::vec::group_vec_axioms, vstd::string::group_string_axioms;

/// One parse error: byte offset and message.
pub struct ParseError {
    pub offset: usize,
    pub message: String,
}

/// The line reported for one parse error.
pub open spec fn error_line(e: ParseError) -> Seq<char> {
    "Parse error at offset "@ + decimal(e.offset as nat) + ": "@ + e.message@
}

/// `Ok` when the parser reported no error; otherwise the failure message for
/// `file_name`: a header line, then one line per error in order.
pub fn parse_report(file_name: &str, errors: &Vec<ParseError>) -> (r: Result<(), String>)
    ensures
        errors@.len() == 0 <==> r is Ok,
        match r {
            Ok(_) => true,
            Err(m) => m@ == "Failed to parse Ruby source in "@ + file_name@ + ":\n"@ + join_lines(
                errors@.map_values(|e: ParseError| error_line(e)),
            ),
        },
{
    if errors.len() == 0 {
        return Ok(());
    }
    let mut m = "Failed to parse Ruby source in ".to_string();
    m.append(file_name);
    m.append(":\n");
    let ghost head = m@;
    let ghost lines = errors@.map_values(|e: ParseError| error_line(e));
    let mut i: usize = 0;
    while i < errors.len()
        invariant
            0 <= i <= errors@.len(),
            lines == errors@.map_values(|e: ParseError| error_line(e)),
            m@ == head + join_lines(lines.subrange(0, i as int)),
        decreases errors.len() - i,
    {
        proof {
            assert(lines.subrange(0, i + 1).drop_last() =~= lines.subrange(0, i as int));
        }
        if i > 0 {
            m.append("\n");
        } else {
            proof {
                assert(join_lines(lines.subrange(0, 0)) =~= Seq::<char>::empty());
            }
        }
        m.append("Parse error at offset ");
        push_decimal(&mut m, errors[i].offset);
        m.append(": ");
        m.append(errors[i].message.as_str());
        proof {
            assert(lines[i as int] == error_line(errors@[i as int]));
            assert(m@ =~= head + join_lines(lines.subrange(0, i + 1)));
        }
        i = i + 1;
    }
    proof {
        assert(lines.subrange(0, i as int) =~= lines);
    }
    Err(m)
}

} // verus!
