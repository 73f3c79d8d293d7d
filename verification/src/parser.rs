use vstd::prelude::*;
use vstd::std_specs::iter::IteratorSpec;
use crate::point::Point;

verus! {

/// Splitting a character sequence at every occurrence of `sep`, as
/// `str::split` does: `n` separators give `n + 1` pieces, in order, with
/// the separators removed. The empty sequence gives one empty piece.
pub open spec fn split_on(s: Seq<char>, sep: char) -> Seq<Seq<char>>
    decreases s.len(),
{
    if s.len() == 0 {
        seq![Seq::<char>::empty()]
    } else {
        let rest = split_on(s.drop_last(), sep);
        if s.last() == sep {
            rest.push(Seq::<char>::empty())
        } else {
            rest.update(rest.len() - 1, rest.last().push(s.last()))
        }
    }
}

/// Whether the character is a decimal digit: its code point lies between
/// those of `'0'` and `'9'`.
pub open spec fn is_digit(c: char) -> bool {
    48 <= c as u32 <= 57
}

/// The numeric value of a decimal digit.
pub open spec fn digit_val(c: char) -> int {
    c as u32 - 48
}

/// Whether every character of the sequence is a decimal digit.
pub open spec fn all_digits(s: Seq<char>) -> bool {
    forall|i: int| 0 <= i < s.len() ==> is_digit(#[trigger] s[i])
}

/// The value of a sequence of decimal digits, most significant first.
pub open spec fn digits_value(s: Seq<char>) -> int
    decreases s.len(),
{
    if s.len() == 0 {
        0
    } else {
        digits_value(s.drop_last()) * 10 + digit_val(s.last())
    }
}

/// The digits of an integer literal, the optional leading sign stripped.
pub open spec fn int_body(s: Seq<char>) -> Seq<char> {
    if s.len() > 0 && (s[0] == '+' || s[0] == '-') {
        s.drop_first()
    } else {
        s
    }
}

/// Whether the literal carries a minus sign.
pub open spec fn int_negative(s: Seq<char>) -> bool {
    s.len() > 0 && s[0] == '-'
}

/// The shape of an integer literal: an optional sign followed by at least
/// one decimal digit, as Rust's `from_str` for integers reads it.
pub open spec fn int_shaped(s: Seq<char>) -> bool {
    int_body(s).len() > 0 && all_digits(int_body(s))
}

/// The signed value of an integer literal.
pub open spec fn int_value(s: Seq<char>) -> int {
    if int_negative(s) {
        -digits_value(int_body(s))
    } else {
        digits_value(int_body(s))
    }
}

/// Whether `i32::from_str` accepts the literal: the right shape, and a
/// value within the type's range.
pub open spec fn parses_as_i32(s: Seq<char>) -> bool {
    int_shaped(s) && -0x8000_0000 <= int_value(s) <= 0x7fff_ffff
}

/// Whether `u32::from_str` accepts the literal: the right shape, no minus
/// sign, and a value within the type's range.
pub open spec fn parses_as_u32(s: Seq<char>) -> bool {
    int_shaped(s) && !int_negative(s) && int_value(s) <= 0xffff_ffff
}

/// The value of a digit sequence is never negative.
proof fn lemma_digits_value_nonneg(s: Seq<char>)
    requires
        all_digits(s),
    ensures
        digits_value(s) >= 0,
    decreases s.len(),
{
    if s.len() > 0 {
        assert(all_digits(s.drop_last()));
        lemma_digits_value_nonneg(s.drop_last());
    }
}

/// Extending a digit sequence never shrinks its value.
proof fn lemma_digits_value_prefix(s: Seq<char>, i: int)
    requires
        all_digits(s),
        0 <= i <= s.len(),
    ensures
        digits_value(s.take(i)) <= digits_value(s),
    decreases s.len() - i,
{
    if i < s.len() {
        lemma_digits_value_prefix(s, i + 1);
        assert(s.take(i + 1).drop_last() =~= s.take(i));
        assert(all_digits(s.take(i)));
        lemma_digits_value_nonneg(s.take(i));
        assert(digits_value(s.take(i + 1)) == digits_value(s.take(i)) * 10 + digit_val(
            s.take(i + 1).last(),
        ));
    } else {
        assert(s.take(i) =~= s);
    }
}

/// Parses an optionally signed decimal literal exactly as `i32::from_str`
/// does: the value when the literal is well-shaped and fits the type,
/// nothing otherwise.
#[verifier::loop_isolation(false)]
fn parse_i32_chars(s: &Vec<char>) -> (r: Option<i32>)
    ensures
        match r {
            Option::Some(v) => parses_as_i32(s@) && v as int == int_value(s@),
            Option::None => !parses_as_i32(s@),
        },
{
    let n = s.len();
    if n == 0 {
        return Option::None;
    }
    let c0 = s[0];
    let neg = c0 == '-';
    let start: usize = if c0 == '-' || c0 == '+' {
        1
    } else {
        0
    };
    if start == n {
        return Option::None;
    }
    let ghost body = int_body(s@);
    proof {
        assert(body =~= s@.skip(start as int));
    }
    let mut acc: u64 = 0;
    let mut i: usize = start;
    while i < n
        invariant
            start <= i <= n,
            all_digits(body.take(i - start)),
            acc == digits_value(body.take(i - start)),
            acc <= 0x8000_0000,
        decreases n - i,
    {
        let c = s[i];
        let cv = c as u32;
        proof {
            assert(body.take(i + 1 - start) =~= body.take(i - start).push(s@[i as int]));
            assert(body.take(i + 1 - start).drop_last() =~= body.take(i - start));
        }
        if cv < 48 || cv > 57 {
            proof {
                assert(!is_digit(body[i - start]));
            }
            return Option::None;
        }
        let d: u64 = (cv - 48) as u64;
        acc = acc * 10 + d;
        if acc > 0x8000_0000 {
            proof {
                if int_shaped(s@) {
                    lemma_digits_value_prefix(body, i + 1 - start);
                }
            }
            return Option::None;
        }
        i += 1;
    }
    proof {
        assert(body.take(n - start) =~= body);
    }
    if neg {
        if acc == 0x8000_0000 {
            Option::Some(-0x8000_0000)
        } else {
            Option::Some(-(acc as i32))
        }
    } else {
        if acc > 0x7fff_ffff {
            Option::None
        } else {
            Option::Some(acc as i32)
        }
    }
}

/// Parses an unsigned decimal literal exactly as `u32::from_str` does: the
/// value when the literal is well-shaped, carries no minus sign and fits
/// the type, nothing otherwise.
#[verifier::loop_isolation(false)]
fn parse_u32_chars(s: &Vec<char>) -> (r: Option<u32>)
    ensures
        match r {
            Option::Some(v) => parses_as_u32(s@) && v as int == int_value(s@),
            Option::None => !parses_as_u32(s@),
        },
{
    let n = s.len();
    if n == 0 {
        return Option::None;
    }
    let c0 = s[0];
    if c0 == '-' {
        return Option::None;
    }
    let start: usize = if c0 == '+' {
        1
    } else {
        0
    };
    if start == n {
        return Option::None;
    }
    let ghost body = int_body(s@);
    proof {
        assert(body =~= s@.skip(start as int));
    }
    let mut acc: u64 = 0;
    let mut i: usize = start;
    while i < n
        invariant
            start <= i <= n,
            all_digits(body.take(i - start)),
            acc == digits_value(body.take(i - start)),
            acc <= 0xffff_ffff,
        decreases n - i,
    {
        let c = s[i];
        let cv = c as u32;
        proof {
            assert(body.take(i + 1 - start) =~= body.take(i - start).push(s@[i as int]));
            assert(body.take(i + 1 - start).drop_last() =~= body.take(i - start));
        }
        if cv < 48 || cv > 57 {
            proof {
                assert(!is_digit(body[i - start]));
            }
            return Option::None;
        }
        let d: u64 = (cv - 48) as u64;
        acc = acc * 10 + d;
        if acc > 0xffff_ffff {
            proof {
                if int_shaped(s@) {
                    lemma_digits_value_prefix(body, i + 1 - start);
                }
            }
            return Option::None;
        }
        i += 1;
    }
    proof {
        assert(body.take(n - start) =~= body);
    }
    Option::Some(acc as u32)
}

/// Collects the characters of the string, in order.
fn chars_of(s: &str) -> (r: Vec<char>)
    ensures
        r@ == s@,
{
    broadcast use vstd::string::axiom_spec_iter;
    broadcast use vstd::string::next_postcondition;

    let mut it = s.chars();
    let mut r: Vec<char> = Vec::new();
    loop
        invariant
            it.decrease() is Some,
            r@ + it.remaining() == s@,
        ensures
            r@ == s@,
        decreases it.decrease()->0,
    {
        match it.next() {
            Option::Some(c) => {
                r.push(c);
                proof {
                    assert(r@ + it.remaining() =~= s@);
                }
            },
            Option::None => {
                proof {
                    assert(r@ =~= s@);
                }
                break ;
            },
        }
    }
    r
}

/// Splits the characters at every occurrence of `sep`, mirroring
/// `str::split`.
#[verifier::loop_isolation(false)]
fn split_chars(s: &Vec<char>, sep: char) -> (pieces: Vec<Vec<char>>)
    ensures
        pieces@.len() == split_on(s@, sep).len(),
        forall|j: int| 0 <= j < pieces@.len() ==> pieces@[j]@ == split_on(s@, sep)[j],
{
    let mut pieces: Vec<Vec<char>> = Vec::new();
    pieces.push(Vec::new());
    let n = s.len();
    let mut i: usize = 0;
    while i < n
        invariant
            0 <= i <= n,
            pieces@.len() >= 1,
            pieces@.len() == split_on(s@.take(i as int), sep).len(),
            forall|j: int|
                0 <= j < pieces@.len() ==> pieces@[j]@ == split_on(s@.take(i as int), sep)[j],
        decreases n - i,
    {
        let c = s[i];
        proof {
            assert(s@.take(i + 1) =~= s@.take(i as int).push(c));
            assert(s@.take(i + 1).drop_last() =~= s@.take(i as int));
        }
        if c == sep {
            pieces.push(Vec::new());
        } else {
            let mut last_piece = pieces.pop().unwrap();
            last_piece.push(c);
            pieces.push(last_piece);
            proof {
                let ps = split_on(s@.take(i + 1), sep);
                let rest = split_on(s@.take(i as int), sep);
                assert(ps == rest.update(rest.len() - 1, rest.last().push(c)));
                assert forall|j: int| 0 <= j < pieces@.len() implies pieces@[j]@ == ps[j] by {
                    if j < pieces@.len() - 1 {
                        assert(pieces@[j]@ == rest[j]);
                    }
                }
            }
        }
        i += 1;
    }
    proof {
        assert(s@.take(n as int) =~= s@);
    }
    pieces
}

/// The comma-separated pieces of a point literal.
pub open spec fn point_pieces(s: Seq<char>) -> Seq<Seq<char>> {
    split_on(s, ',')
}

/// Whether the text is a point literal: exactly two comma-separated
/// pieces, each an `i32` literal.
pub open spec fn valid_point_literal(s: Seq<char>) -> bool {
    point_pieces(s).len() == 2 && parses_as_i32(point_pieces(s)[0]) && parses_as_i32(
        point_pieces(s)[1],
    )
}

/// The cell that a valid point literal denotes.
pub open spec fn point_of(s: Seq<char>) -> Point {
    Point {
        x_position: int_value(point_pieces(s)[0]) as i32,
        y_position: int_value(point_pieces(s)[1]) as i32,
    }
}

/// The message reported for a text that is not a point literal.
pub open spec fn point_error(s: Seq<char>) -> Seq<char> {
    if point_pieces(s).len() != 2 {
        "Bad format creating a Point, should be x_position,y_position"@
    } else if !parses_as_i32(point_pieces(s)[0]) {
        "The x_position should be an integer"@
    } else {
        "The y_position should be an integer"@
    }
}

/// Parses one `x,y` pair into a cell; the message on failure names what
/// was wrong.
fn point_from_chars(cs: &Vec<char>) -> (r: Result<Point, String>)
    ensures
        match r {
            Result::Ok(p) => valid_point_literal(cs@) && p == point_of(cs@),
            Result::Err(e) => !valid_point_literal(cs@) && e@ == point_error(cs@),
        },
{
    let pieces = split_chars(cs, ',');
    if pieces.len() != 2 {
        return Result::Err(
            "Bad format creating a Point, should be x_position,y_position".to_owned(),
        );
    }
    let x_position = match parse_i32_chars(&pieces[0]) {
        Option::Some(v) => v,
        Option::None => {
            return Result::Err("The x_position should be an integer".to_owned());
        },
    };
    let y_position = match parse_i32_chars(&pieces[1]) {
        Option::Some(v) => v,
        Option::None => {
            return Result::Err("The y_position should be an integer".to_owned());
        },
    };
    Result::Ok(Point::new(x_position, y_position))
}

/// Parses one `x,y` pair from text: both pieces around the comma must be
/// `i32` literals.
pub fn point_from_str(s: &str) -> (r: Result<Point, String>)
    ensures
        match r {
            Result::Ok(p) => valid_point_literal(s@) && p == point_of(s@),
            Result::Err(e) => !valid_point_literal(s@) && e@ == point_error(s@),
        },
{
    let cs = chars_of(s);
    point_from_chars(&cs)
}

/// The colon-separated pieces of a seed list.
pub open spec fn points_pieces(s: Seq<char>) -> Seq<Seq<char>> {
    split_on(s, ':')
}

/// Whether the text is a seed list: nonempty, with every colon-separated
/// piece a point literal.
pub open spec fn valid_points_literal(s: Seq<char>) -> bool {
    s.len() > 0 && forall|i: int|
        0 <= i < points_pieces(s).len() ==> valid_point_literal(#[trigger] points_pieces(s)[i])
}

/// The cells that a valid seed list denotes, in order.
pub open spec fn points_of(s: Seq<char>) -> Seq<Point> {
    points_pieces(s).map_values(|p: Seq<char>| point_of(p))
}

/// Parses every colon-separated piece as a point literal; the first piece
/// that is no point literal decides the error.
#[verifier::loop_isolation(false)]
fn points_from_chars(cs: &Vec<char>) -> (r: Result<Vec<Point>, String>)
    ensures
        match r {
            Result::Ok(points) => {
                &&& forall|i: int|
                    0 <= i < points_pieces(cs@).len() ==> valid_point_literal(
                        #[trigger] points_pieces(cs@)[i],
                    )
                &&& points@.len() == points_pieces(cs@).len()
                &&& forall|i: int|
                    0 <= i < points@.len() ==> points@[i] == point_of(points_pieces(cs@)[i])
            },
            Result::Err(e) => exists|i: int|
                0 <= i < points_pieces(cs@).len() && !valid_point_literal(
                    #[trigger] points_pieces(cs@)[i],
                ) && e@ == point_error(points_pieces(cs@)[i]) && (forall|j: int|
                    0 <= j < i ==> valid_point_literal(#[trigger] points_pieces(cs@)[j])),
        },
{
    let pieces = split_chars(cs, ':');
    let mut points: Vec<Point> = Vec::new();
    let n = pieces.len();
    let mut i: usize = 0;
    while i < n
        invariant
            0 <= i <= n,
            points@.len() == i,
            forall|j: int|
                0 <= j < i ==> valid_point_literal(#[trigger] points_pieces(cs@)[j]),
            forall|j: int| 0 <= j < i ==> points@[j] == point_of(points_pieces(cs@)[j]),
        decreases n - i,
    {
        match point_from_chars(&pieces[i]) {
            Result::Ok(p) => points.push(p),
            Result::Err(e) => {
                proof {
                    assert(pieces@[i as int]@ == points_pieces(cs@)[i as int]);
                    assert(!valid_point_literal(points_pieces(cs@)[i as int]));
                    assert(e@ == point_error(points_pieces(cs@)[i as int]));
                }
                return Result::Err(e);
            },
        }
        i += 1;
    }
    Result::Ok(points)
}

/// Parses the seed list handed over as one string of `x,y` pairs joined by
/// colons. An empty string, or any piece that is no point literal, is
/// rejected with a message naming the first thing that was wrong.
pub fn parse_points_arguments(args: String) -> (r: Result<Vec<Point>, String>)
    ensures
        match r {
            Result::Ok(points) => valid_points_literal(args@) && points@ == points_of(args@),
            Result::Err(e) => {
                &&& !valid_points_literal(args@)
                &&& if args@.len() == 0 {
                    e@ == "No arguments provided"@
                } else {
                    exists|i: int|
                        0 <= i < points_pieces(args@).len() && !valid_point_literal(
                            #[trigger] points_pieces(args@)[i],
                        ) && e@ == point_error(points_pieces(args@)[i]) && (forall|j: int|
                            0 <= j < i ==> valid_point_literal(
                                #[trigger] points_pieces(args@)[j],
                            ))
                }
            },
        },
{
    if args.as_str().is_empty() {
        return Result::Err("No arguments provided".to_owned());
    }
    let cs = chars_of(args.as_str());
    let r = points_from_chars(&cs);
    proof {
        if r is Ok {
            assert(r->Ok_0@ =~= points_of(args@));
        }
    }
    r
}

/// Parses the raw command-line argument vector: its first entry must be a
/// seed list of `x,y` pairs joined by colons.
pub fn parse_arguments(args: Vec<String>) -> (r: Result<Vec<Point>, String>)
    ensures
        args@.len() == 0 ==> r is Err && r->Err_0@ == "No arguments provided"@,
        args@.len() > 0 ==> match r {
            Result::Ok(points) => {
                &&& forall|i: int|
                    0 <= i < points_pieces(args@[0]@).len() ==> valid_point_literal(
                        #[trigger] points_pieces(args@[0]@)[i],
                    )
                &&& points@ == points_of(args@[0]@)
            },
            Result::Err(e) => exists|i: int|
                0 <= i < points_pieces(args@[0]@).len() && !valid_point_literal(
                    #[trigger] points_pieces(args@[0]@)[i],
                ) && e@ == point_error(points_pieces(args@[0]@)[i]) && (forall|j: int|
                    0 <= j < i ==> valid_point_literal(#[trigger] points_pieces(args@[0]@)[j])),
        },
{
    if args.len() == 0 {
        return Result::Err("No arguments provided".to_owned());
    }
    let cs = chars_of(args[0].as_str());
    let r = points_from_chars(&cs);
    proof {
        if r is Ok {
            assert(r->Ok_0@ =~= points_of(args@[0]@));
        }
    }
    r
}

/// The comma-separated pieces of a random-seed request.
pub open spec fn random_pieces(s: Seq<char>) -> Seq<Seq<char>> {
    split_on(s, ',')
}

/// Whether the text is a well-formed random-seed request
/// `max,min,count`: `max` and `min` are `i32` literals, `count` a `u32`
/// literal, and `min` is at most `max`.
pub open spec fn valid_random_literal(s: Seq<char>) -> bool {
    &&& random_pieces(s).len() == 3
    &&& parses_as_i32(random_pieces(s)[0])
    &&& parses_as_i32(random_pieces(s)[1])
    &&& parses_as_u32(random_pieces(s)[2])
    &&& int_value(random_pieces(s)[1]) <= int_value(random_pieces(s)[0])
}

/// A request whose two bounds are equal: its sampling range `min..max` is
/// empty, and drawing from it cannot return.
pub open spec fn random_degenerate(s: Seq<char>) -> bool {
    &&& random_pieces(s).len() == 3
    &&& parses_as_i32(random_pieces(s)[0])
    &&& parses_as_i32(random_pieces(s)[1])
    &&& parses_as_u32(random_pieces(s)[2])
    &&& int_value(random_pieces(s)[1]) == int_value(random_pieces(s)[0])
}

/// The message reported for a rejected random-seed request.
pub open spec fn random_error(s: Seq<char>) -> Seq<char> {
    if s.len() == 0 {
        "No arguments provided"@
    } else if random_pieces(s).len() != 3 {
        "Bad arguments format, it should be in the form of max_position,min_position,ammount_of_points"@
    } else if !parses_as_i32(random_pieces(s)[0]) {
        "Max position must be an integer"@
    } else if !parses_as_i32(random_pieces(s)[1]) {
        "Min position must be an integer"@
    } else if !parses_as_u32(random_pieces(s)[2]) {
        "Ammout of points must be a positive number"@
    } else {
        "Max position must be bigger than min position"@
    }
}

/// Parses a request `max,min,count` and draws that many cells whose
/// coordinates are uniform samples from `min..max`. A request whose two
/// bounds are equal is excluded: drawing from the empty range does not
/// return.
#[verifier::loop_isolation(false)]
pub fn parse_random_arguments(args: String) -> (r: Result<Vec<Point>, String>)
    requires
        !random_degenerate(args@),
    ensures
        match r {
            Result::Ok(points) => {
                &&& valid_random_literal(args@)
                &&& points@.len() == int_value(random_pieces(args@)[2])
                &&& forall|i: int|
                    0 <= i < points@.len() ==> {
                        &&& int_value(random_pieces(args@)[1]) <= ((
                        #[trigger] points@[i]).x_position as int) < int_value(
                            random_pieces(args@)[0],
                        )
                        &&& int_value(random_pieces(args@)[1]) <= (points@[i].y_position as int)
                            < int_value(random_pieces(args@)[0])
                    }
            },
            Result::Err(e) => !valid_random_literal(args@) && e@ == random_error(args@),
        },
{
    if args.as_str().is_empty() {
        return Result::Err("No arguments provided".to_owned());
    }
    let cs = chars_of(args.as_str());
    let pieces = split_chars(&cs, ',');
    if pieces.len() != 3 {
        return Result::Err(
            "Bad arguments format, it should be in the form of max_position,min_position,ammount_of_points".to_owned(),
        );
    }
    let max_position = match parse_i32_chars(&pieces[0]) {
        Option::Some(v) => v,
        Option::None => {
            return Result::Err("Max position must be an integer".to_owned());
        },
    };
    let min_position = match parse_i32_chars(&pieces[1]) {
        Option::Some(v) => v,
        Option::None => {
            return Result::Err("Min position must be an integer".to_owned());
        },
    };
    let ammount_of_points = match parse_u32_chars(&pieces[2]) {
        Option::Some(v) => v,
        Option::None => {
            return Result::Err("Ammout of points must be a positive number".to_owned());
        },
    };
    if min_position > max_position {
        return Result::Err("Max position must be bigger than min position".to_owned());
    }
    proof {
        assert(min_position < max_position);
    }
    let mut random_points: Vec<Point> = Vec::new();
    let mut k: u32 = 0;
    while k < ammount_of_points
        invariant
            0 <= k <= ammount_of_points,
            random_points@.len() == k,
            forall|j: int|
                0 <= j < random_points@.len() ==> {
                    &&& min_position <= ((#[trigger] random_points@[j]).x_position)
                        < max_position
                    &&& min_position <= random_points@[j].y_position < max_position
                },
        decreases ammount_of_points - k,
    {
        let random_point = Point::generate_random_point(min_position..max_position);
        random_points.push(random_point);
        k += 1;
    }
    Result::Ok(random_points)
}

} // verus!

