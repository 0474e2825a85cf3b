use vstd::prelude::*;

verus! {

#[verifier::external_type_specification]
#[verifier::external_body]
pub struct ExJsonError(serde_json::Error);

/// What JSON text parses to as lists of pairs of `usize`; `None` where it is
/// not such JSON.
pub uninterp spec fn json_usize_pair_lists(text: Seq<char>) -> Option<Seq<Seq<[usize; 2]>>>;

/// What JSON text parses to as lists of pairs of `i32`.
pub uninterp spec fn json_i32_pair_lists(text: Seq<char>) -> Option<Seq<Seq<[i32; 2]>>>;

/// What JSON text parses to as a list of `i32`.
pub uninterp spec fn json_i32_list(text: Seq<char>) -> Option<Seq<i32>>;

/// What JSON text parses to as a `u32`.
pub uninterp spec fn json_u32(text: Seq<char>) -> Option<u32>;

/// What JSON text parses to as an array of 32 `i8`.
pub uninterp spec fn json_i8_array(text: Seq<char>) -> Option<Seq<i8>>;

/// `serde_json::from_str` into `Vec<Vec<[usize; 2]>>`: the parse is a
/// function of the text alone, `Ok` exactly where the text is such JSON.
#[verifier::external_body]
pub(crate) fn parse_usize_pair_lists(text: &str) -> (r: Result<Vec<Vec<[usize; 2]>>, serde_json::Error>)
    ensures
        match r {
            Ok(v) => json_usize_pair_lists(text@) == Some(v@.map_values(|x: Vec<[usize; 2]>| x@)),
            Err(_) => json_usize_pair_lists(text@) is None,
        },
{
    serde_json::from_str::<Vec<Vec<[usize; 2]>>>(text)
}

/// `serde_json::from_str` into `Vec<Vec<[i32; 2]>>`.
#[verifier::external_body]
pub(crate) fn parse_i32_pair_lists(text: &str) -> (r: Result<Vec<Vec<[i32; 2]>>, serde_json::Error>)
    ensures
        match r {
            Ok(v) => json_i32_pair_lists(text@) == Some(v@.map_values(|x: Vec<[i32; 2]>| x@)),
            Err(_) => json_i32_pair_lists(text@) is None,
        },
{
    serde_json::from_str::<Vec<Vec<[i32; 2]>>>(text)
}

/// `serde_json::from_str` into `Vec<i32>`.
#[verifier::external_body]
pub(crate) fn parse_i32_list(text: &str) -> (r: Result<Vec<i32>, serde_json::Error>)
    ensures
        match r {
            Ok(v) => json_i32_list(text@) == Some(v@),
            Err(_) => json_i32_list(text@) is None,
        },
{
    serde_json::from_str::<Vec<i32>>(text)
}

/// `serde_json::from_str` into `u32`.
#[verifier::external_body]
pub(crate) fn parse_u32(text: &str) -> (r: Result<u32, serde_json::Error>)
    ensures
        match r {
            Ok(v) => json_u32(text@) == Some(v),
            Err(_) => json_u32(text@) is None,
        },
{
    serde_json::from_str::<u32>(text)
}

/// `serde_json::from_str` into `[i8; 32]`.
#[verifier::external_body]
pub(crate) fn parse_i8_array(text: &str) -> (r: Result<[i8; 32], serde_json::Error>)
    ensures
        match r {
            Ok(v) => json_i8_array(text@) == Some(v@),
            Err(_) => json_i8_array(text@) is None,
        },
{
    serde_json::from_str::<[i8; 32]>(text)
}

/// The decimal digits of `d < 10`.
pub open spec fn digit_char(d: nat) -> char {
    ((d + 48) as u32) as char
}

/// The decimal text of a number, without sign or leading zeros.
pub open spec fn decimal_text(n: nat) -> Seq<char>
    decreases n,
{
    if n < 10 {
        seq![digit_char(n)]
    } else {
        decimal_text(n / 10).push(digit_char(n % 10))
    }
}

/// `serde_json::to_string` of a `usize`: serde_json writes unsigned
/// integers with `itoa`, as their decimal digits, and cannot fail on them.
#[verifier::external_body]
fn usize_to_json_text(n: &usize) -> (r: Result<String, serde_json::Error>)
    ensures
        match r {
            Ok(s) => s@ == decimal_text(*n as nat),
            Err(_) => false,
        },
{
    serde_json::to_string(n)
}

/// The JSON text of an integer: its decimal digits, after a minus sign where
/// it is negative.
pub open spec fn integer_text(n: int) -> Seq<char> {
    if n < 0 {
        seq!['-'] + decimal_text((-n) as nat)
    } else {
        decimal_text(n as nat)
    }
}

/// The texts of the items, with a comma between each two.
pub open spec fn comma_joined(items: Seq<Seq<char>>) -> Seq<char>
    decreases items.len(),
{
    if items.len() == 0 {
        Seq::empty()
    } else if items.len() == 1 {
        items[0]
    } else {
        comma_joined(items.drop_last()) + seq![','] + items.last()
    }
}

/// The compact JSON text of an array whose items have the given texts.
pub open spec fn json_array(items: Seq<Seq<char>>) -> Seq<char> {
    seq!['['] + comma_joined(items) + seq![']']
}

/// The JSON text of one search's scoring: an array of the start, the node
/// count, the 32 scores and the lists of destinations and their times.
pub open spec fn scoring_text(t: (i32, u32, Seq<i64>, Seq<u32>, Seq<u16>)) -> Seq<char> {
    json_array(
        seq![
            integer_text(t.0 as int),
            integer_text(t.1 as int),
            json_array(t.2.map_values(|x: i64| integer_text(x as int))),
            json_array(t.3.map_values(|x: u32| integer_text(x as int))),
            json_array(t.4.map_values(|x: u16| integer_text(x as int))),
        ],
    )
}

/// The JSON text of a list of search scorings: the array of their texts.
pub open spec fn json_of_scorings(results: Seq<(i32, u32, Seq<i64>, Seq<u32>, Seq<u16>)>) -> Seq<char> {
    json_array(results.map_values(|t: (i32, u32, Seq<i64>, Seq<u32>, Seq<u16>)| scoring_text(t)))
}

/// `serde_json::to_string` of a list of scorings. It fails only where a
/// `Serialize` impl fails or a map has keys that are not strings; tuples,
/// arrays, vectors and integers have neither, so it is `Ok`. Its compact
/// formatter writes a tuple, an array or a vector as `[`, the items
/// separated by `,`, and `]`, with no spaces, and an integer with `itoa`, as
/// its decimal digits after a `-` where it is negative.
#[verifier::external_body]
fn scorings_to_json_text(results: &Vec<(i32, u32, [i64; 32], Vec<u32>, Vec<u16>)>) -> (r: Result<String, serde_json::Error>)
    ensures
        match r {
            Ok(s) => s@ == json_of_scorings(
                results@.map_values(|t: (i32, u32, [i64; 32], Vec<u32>, Vec<u16>)| (t.0, t.1, t.2@, t.3@, t.4@)),
            ),
            Err(_) => false,
        },
{
    serde_json::to_string(results)
}

/// The JSON text of the scorings of a request's searches.
pub fn scorings_to_json(results: &Vec<(i32, u32, [i64; 32], Vec<u32>, Vec<u16>)>) -> (s: String)
    ensures
        s@ == json_of_scorings(
            results@.map_values(|t: (i32, u32, [i64; 32], Vec<u32>, Vec<u16>)| (t.0, t.1, t.2@, t.3@, t.4@)),
        ),
{
    match scorings_to_json_text(results) {
        Ok(s) => s,
        Err(_) => String::new(),
    }
}

/// The JSON text of the number of nodes: its decimal digits.
pub fn node_count_to_json(count_original_nodes: usize) -> (s: String)
    ensures
        s@ == decimal_text(count_original_nodes as nat),
{
    match usize_to_json_text(&count_original_nodes) {
        Ok(s) => s,
        Err(_) => String::new(),
    }
}

} // verus!
