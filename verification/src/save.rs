//! Saving a document and reading it back: the text a document is saved as
//! reads back, line by line, as the same document.

use vstd::prelude::*;

use crate::config::{
    apply_setting, bounded_integer, default_config, direction_problem, directions_value,
    filter_row, integers, known_direction, list_items, marker_kind, pair_value,
    lemma_parsed_is_readable, parsed_text, read_line, read_lines, rotation_limit,
    setting_value, ConfigView, IntRange, ReadState, ScanOrder, TileSize,
};
use crate::model::{
    conf_text, direction_flags, direction_list, document_of, face_word, flag_word, kind_marker,
    lines_text, order_word, pair_text, probe_document, row_line, rows_text, selected,
    settings_lines, settings_text, DocumentView,
};
use crate::filter::{failure_message, prepared_filters};
use crate::types::{algorithm_name, algorithm_named, TextureAlgorithm};
use crate::text::{
    decimal, find_char, is_space, joined, lemma_pieces_break, lines_of, lowercase, lemma_decimal_reads_back, lemma_find_char_skip,
    lemma_pieces_concat, lemma_pieces_single, lemma_trim_plain, lemma_trim_spaced,
    lemma_words_empty, lemma_words_front, lemma_words_single, lemma_words_space, pieces, solid,
    trim, words,
};
use crate::types::{Face, RotationInfo, RotationKind};

verus! {

/// A decimal text has no whitespace, and reads back as its value.
proof fn lemma_decimal_solid(v: int)
    ensures
        solid(decimal(v)),
        decimal(v)[0] != '#' && decimal(v)[0] != '[' && decimal(v)[0] != '|',
        forall|i: int| 0 <= i < decimal(v).len() ==> #[trigger] decimal(v)[i] != '|' && decimal(v)[i]
            != ',' && decimal(v)[i] != '=' && decimal(v)[i] != ')' && decimal(v)[i] != ']',
{
    lemma_decimal_reads_back(v);
    let d = decimal(v);
    assert forall|i: int| 0 <= i < d.len() implies !is_space(#[trigger] d[i]) by {}
}

/// The marker word of a row kind, if it has one.
pub open spec fn marker_word(kind: RotationKind) -> Seq<char> {
    match kind {
        RotationKind::StandardFourWay => Seq::empty(),
        RotationKind::StandardSide => "side"@,
        RotationKind::Netherrack(face) => "netherrack-"@ + face_word(face),
    }
}

proof fn lemma_marker(kind: RotationKind)
    ensures
        kind_marker(kind) == if kind == RotationKind::StandardFourWay {
            Seq::<char>::empty()
        } else {
            seq![' '] + marker_word(kind)
        },
        kind != RotationKind::StandardFourWay ==> solid(marker_word(kind)) && marker_kind(
            marker_word(kind),
        ) == Some(kind),
{
    reveal_strlit(" side");
    reveal_strlit("side");
    reveal_strlit(" netherrack-");
    reveal_strlit("netherrack-");
    reveal_strlit("up");
    reveal_strlit("down");
    reveal_strlit("north");
    reveal_strlit("south");
    reveal_strlit("east");
    reveal_strlit("west");
    reveal_strlit("netherrack-up");
    reveal_strlit("netherrack-down");
    reveal_strlit("netherrack-north");
    reveal_strlit("netherrack-south");
    reveal_strlit("netherrack-east");
    reveal_strlit("netherrack-west");
    match kind {
        RotationKind::StandardFourWay => {},
        RotationKind::StandardSide => {
            assert(" side"@ =~= seq![' '] + "side"@);
            let m = "side"@;
            assert forall|i: int| 0 <= i < m.len() implies !is_space(#[trigger] m[i]) by {}
        },
        RotationKind::Netherrack(face) => {
            assert(" netherrack-"@ + face_word(face) =~= seq![' '] + ("netherrack-"@ + face_word(
                face,
            )));
            let m = "netherrack-"@ + face_word(face);
            match face {
                Face::Up => assert(m =~= "netherrack-up"@),
                Face::Down => assert(m =~= "netherrack-down"@),
                Face::North => assert(m =~= "netherrack-north"@),
                Face::South => assert(m =~= "netherrack-south"@),
                Face::East => assert(m =~= "netherrack-east"@),
                Face::West => assert(m =~= "netherrack-west"@),
            }
            assert(m != "side"@);
            assert(m[11] == face_word(face)[0]);
            assert("netherrack-up"@[11] == 'u');
            assert("netherrack-down"@[11] == 'd');
            assert("netherrack-north"@[11] == 'n');
            assert("netherrack-south"@[11] == 's');
            assert("netherrack-east"@[11] == 'e');
            assert("netherrack-west"@[11] == 'w');
            assert forall|i: int| 0 <= i < m.len() implies !is_space(#[trigger] m[i]) by {
                if i < 11 {
                    assert(m[i] == "netherrack-"@[i]);
                } else {
                    assert(m[i] == face_word(face)[i - 11]);
                }
            }
            assert(solid(m));
        },
    }
}

/// A filter row the editor writes reads back as the same observation.
pub proof fn lemma_row_reads_back(info: RotationInfo)
    requires
        info.rotation < rotation_limit(info.kind),
    ensures
        trim(row_line(info)) == row_line(info),
        row_line(info)[0] != '#' && row_line(info)[0] != '[',
        filter_row(row_line(info)) == Ok::<RotationInfo, Seq<char>>(info),
{
    reveal_strlit(" ");
    reveal_strlit(" | ");
    let dx = decimal(info.x as int);
    let dy = decimal(info.y as int);
    let dz = decimal(info.z as int);
    let dr = decimal(info.rotation as int);
    lemma_decimal_solid(info.x as int);
    lemma_decimal_solid(info.y as int);
    lemma_decimal_solid(info.z as int);
    lemma_decimal_solid(info.rotation as int);
    lemma_decimal_reads_back(info.x as int);
    lemma_decimal_reads_back(info.y as int);
    lemma_decimal_reads_back(info.z as int);
    lemma_decimal_reads_back(info.rotation as int);
    lemma_marker(info.kind);
    let line = row_line(info);
    let left = dx + seq![' '] + dy + seq![' '] + dz + seq![' '];
    let right = seq![' '] + dr + kind_marker(info.kind);
    assert(line =~= left + seq!['|'] + right);
    // The bar sits right after the three offsets.
    let k = left.len() as int;
    assert forall|i: int| 0 <= i < k implies line[i] != '|' by {
        assert(line[i] == left[i]);
        if i < dx.len() {
            assert(left[i] == dx[i]);
        } else if i == dx.len() {
        } else if i < dx.len() + 1 + dy.len() {
            assert(left[i] == dy[i - dx.len() - 1]);
        } else if i == dx.len() + 1 + dy.len() {
        } else if i < dx.len() + 1 + dy.len() + 1 + dz.len() {
            assert(left[i] == dz[i - dx.len() - 1 - dy.len() - 1]);
        }
    }
    lemma_find_char_skip(line, '|', k);
    assert(line.skip(k)[0] == '|');
    assert(find_char(line, '|') == k);
    assert(line.take(k) =~= left);
    assert(line.skip(k + 1) =~= right);
    // Three offset words on the left.
    lemma_words_empty();
    assert(dz + seq![' '] =~= dz + seq![' '] + Seq::<char>::empty());
    lemma_words_front(dz, Seq::empty());
    assert(dy + seq![' '] + dz + seq![' '] =~= dy + seq![' '] + (dz + seq![' ']));
    lemma_words_front(dy, dz + seq![' ']);
    assert(left =~= dx + seq![' '] + (dy + seq![' '] + dz + seq![' ']));
    lemma_words_front(dx, dy + seq![' '] + dz + seq![' ']);
    assert(words(left) =~= seq![dx, dy, dz]);
    // The rotation, then the marker, on the right.
    assert(right =~= seq![' '] + (dr + kind_marker(info.kind)));
    lemma_words_space(dr + kind_marker(info.kind));
    if info.kind == RotationKind::StandardFourWay {
        assert(dr + kind_marker(info.kind) =~= dr);
        lemma_words_single(dr);
    } else {
        assert(dr + kind_marker(info.kind) =~= dr + seq![' '] + marker_word(info.kind));
        lemma_words_front(dr, marker_word(info.kind));
        lemma_words_single(marker_word(info.kind));
    }
    // The line starts with an offset and ends with a digit or a marker letter.
    lemma_trim_plain(line);
}

/// A non-empty text that neither starts nor ends with whitespace.
pub open spec fn plain(text: Seq<char>) -> bool {
    text.len() > 0 && !is_space(text[0]) && !is_space(text.last())
}

/// A decimal text holds no separator, so splitting it at one leaves it whole.
proof fn lemma_decimal_whole(v: int, separator: char)
    requires
        separator == ',' || separator == '|' || separator == '=',
    ensures
        pieces(decimal(v), separator) == seq![decimal(v)],
        pieces(seq![' '] + decimal(v), separator) == seq![seq![' '] + decimal(v)],
        plain(decimal(v)),
{
    lemma_decimal_solid(v);
    lemma_decimal_reads_back(v);
    let d = decimal(v);
    let spaced = seq![' '] + d;
    assert(!d.contains(separator)) by {
        if d.contains(separator) {
            let j = choose|j: int| 0 <= j < d.len() && d[j] == separator;
            assert(d[j] != separator);
        }
    }
    assert(!spaced.contains(separator)) by {
        if spaced.contains(separator) {
            let j = choose|j: int| 0 <= j < spaced.len() && spaced[j] == separator;
            if j > 0 {
                assert(spaced[j] == d[j - 1]);
            }
        }
    }
    lemma_pieces_single(d, separator);
    lemma_pieces_single(spaced, separator);
}

/// `(a, b)` reads back as the pair.
proof fn lemma_pair_reads_back(a: int, b: int, low: int, high: int)
    requires
        low <= a <= high,
        low <= b <= high,
    ensures
        pair_value(pair_text(a, b), low, high) == Some((a, b)),
        plain(pair_text(a, b)),
{
    reveal_strlit("(");
    reveal_strlit(", ");
    reveal_strlit(")");
    let da = decimal(a);
    let db = decimal(b);
    let text = pair_text(a, b);
    lemma_decimal_whole(a, ',');
    lemma_decimal_whole(b, ',');
    lemma_decimal_reads_back(a);
    lemma_decimal_reads_back(b);
    assert(text =~= seq!['('] + da + seq![','] + (seq![' '] + db) + seq![')']);
    let inner = text.subrange(1, text.len() - 1);
    assert(inner =~= da + seq![','] + (seq![' '] + db));
    lemma_pieces_concat(da, seq![' '] + db, ',');
    let parts = pieces(inner, ',');
    assert(parts =~= seq![da, seq![' '] + db]);
    lemma_trim_plain(da);
    lemma_trim_spaced(db);
    assert(text[0] == '(');
    assert(text.last() == ')');
}

/// A decimal `v` in `[low, high]` reads back as `v`.
proof fn lemma_bounded_reads_back(v: int, low: int, high: int)
    requires
        low <= v <= high,
    ensures
        bounded_integer(decimal(v), low, high) == Some(v),
        plain(decimal(v)),
{
    lemma_decimal_reads_back(v);
    lemma_decimal_whole(v, ',');
}

/// The decimal texts of a list of values.
pub open spec fn decimals(values: Seq<i32>) -> Seq<Seq<char>> {
    values.map_values(|d: i32| decimal(d as int))
}

/// A written direction list splits back into its decimal texts.
proof fn lemma_list_splits(values: Seq<i32>)
    requires
        values.len() >= 1,
    ensures
        pieces(direction_list(values), ',').map_values(|part: Seq<char>| trim(part)) == decimals(
            values,
        ),
        plain(direction_list(values)),
    decreases values.len(),
{
    reveal_strlit(", ");
    let parts = decimals(values);
    lemma_decimal_whole(values.last() as int, ',');
    lemma_trim_plain(decimal(values.last() as int));
    lemma_trim_spaced(decimal(values.last() as int));
    if values.len() == 1 {
        assert(parts =~= seq![decimal(values[0] as int)]);
        assert(direction_list(values) == parts[0]);
        assert(pieces(direction_list(values), ',').map_values(|part: Seq<char>| trim(part)) =~= parts);
    } else {
        let rest = values.drop_last();
        lemma_list_splits(rest);
        assert(decimals(rest) =~= parts.drop_last());
        let last = decimal(values.last() as int);
        assert(parts.last() == last);
        assert(direction_list(values) == joined(parts.drop_last(), ", "@) + ", "@ + last);
        assert(direction_list(values) =~= direction_list(rest) + seq![','] + (seq![' '] + last));
        lemma_pieces_concat(direction_list(rest), seq![' '] + last, ',');
        let split = pieces(direction_list(values), ',');
        assert(split == pieces(direction_list(rest), ',') + seq![seq![' '] + last]);
        assert(split.map_values(|part: Seq<char>| trim(part)) =~= pieces(direction_list(rest), ',').map_values(
            |part: Seq<char>| trim(part),
        ).push(last));
        assert(decimals(values) =~= decimals(rest).push(last));
        assert(direction_list(values)[0] == direction_list(rest)[0]);
        assert(direction_list(values).last() == last.last());
    }
}

/// Decimal texts of `i32` values read back as the values.
proof fn lemma_integers_read_back(values: Seq<i32>)
    ensures
        integers(decimals(values)) == Some(values),
    decreases values.len(),
{
    if values.len() > 0 {
        let rest = values.drop_last();
        lemma_integers_read_back(rest);
        assert(decimals(values).drop_last() =~= decimals(rest));
        lemma_bounded_reads_back(values.last() as int, -2147483648, 2147483647);
        assert(decimals(values).last() == decimal(values.last() as int));
        assert(rest.push(values.last()) =~= values);
    } else {
        assert(decimals(values) =~= Seq::<Seq<char>>::empty());
    }
}

/// A strictly ascending list of known directions has no problem.
proof fn lemma_ascending_directions(values: Seq<i32>)
    requires
        forall|i: int| 0 <= i < values.len() ==> known_direction(#[trigger] values[i]),
        forall|i: int, j: int| 0 <= i < j < values.len() ==> values[i] < values[j],
    ensures
        direction_problem(values) is None,
    decreases values.len(),
{
    if values.len() > 0 {
        let rest = values.drop_last();
        assert forall|i: int| 0 <= i < rest.len() implies known_direction(#[trigger] rest[i]) by {
            assert(rest[i] == values[i]);
        }
        assert forall|i: int, j: int| 0 <= i < j < rest.len() implies rest[i] < rest[j] by {
            assert(rest[i] == values[i] && rest[j] == values[j]);
        }
        lemma_ascending_directions(rest);
        assert(known_direction(values[values.len() - 1]));
        assert(!rest.contains(values.last())) by {
            if rest.contains(values.last()) {
                let i = choose|i: int| 0 <= i < rest.len() && rest[i] == values.last();
                assert(values[i] < values[values.len() - 1]);
            }
        }
    }
}

/// The ticked directions are known, strictly ascending, and tick the same
/// flags again.
proof fn lemma_selected(flags: Seq<bool>)
    requires
        flags.len() == 4,
    ensures
        forall|i: int|
            0 <= i < selected(flags).len() ==> known_direction(#[trigger] selected(flags)[i]),
        forall|i: int, j: int|
            0 <= i < j < selected(flags).len() ==> selected(flags)[i] < selected(flags)[j],
        direction_flags(selected(flags)) == flags,
{
    if flags[0] {
        if flags[1] {
            if flags[2] {
                if flags[3] {
                    assert(flags =~= seq![true, true, true, true]);
                    assert(selected(flags) =~= seq![0i32, 90i32, 180i32, 270i32]);
                } else {
                    assert(flags =~= seq![true, true, true, false]);
                    assert(selected(flags) =~= seq![0i32, 90i32, 180i32]);
                }
            } else {
                if flags[3] {
                    assert(flags =~= seq![true, true, false, true]);
                    assert(selected(flags) =~= seq![0i32, 90i32, 270i32]);
                } else {
                    assert(flags =~= seq![true, true, false, false]);
                    assert(selected(flags) =~= seq![0i32, 90i32]);
                }
            }
        } else {
            if flags[2] {
                if flags[3] {
                    assert(flags =~= seq![true, false, true, true]);
                    assert(selected(flags) =~= seq![0i32, 180i32, 270i32]);
                } else {
                    assert(flags =~= seq![true, false, true, false]);
                    assert(selected(flags) =~= seq![0i32, 180i32]);
                }
            } else {
                if flags[3] {
                    assert(flags =~= seq![true, false, false, true]);
                    assert(selected(flags) =~= seq![0i32, 270i32]);
                } else {
                    assert(flags =~= seq![true, false, false, false]);
                    assert(selected(flags) =~= seq![0i32]);
                }
            }
        }
    } else {
        if flags[1] {
            if flags[2] {
                if flags[3] {
                    assert(flags =~= seq![false, true, true, true]);
                    assert(selected(flags) =~= seq![90i32, 180i32, 270i32]);
                } else {
                    assert(flags =~= seq![false, true, true, false]);
                    assert(selected(flags) =~= seq![90i32, 180i32]);
                }
            } else {
                if flags[3] {
                    assert(flags =~= seq![false, true, false, true]);
                    assert(selected(flags) =~= seq![90i32, 270i32]);
                } else {
                    assert(flags =~= seq![false, true, false, false]);
                    assert(selected(flags) =~= seq![90i32]);
                }
            }
        } else {
            if flags[2] {
                if flags[3] {
                    assert(flags =~= seq![false, false, true, true]);
                    assert(selected(flags) =~= seq![180i32, 270i32]);
                } else {
                    assert(flags =~= seq![false, false, true, false]);
                    assert(selected(flags) =~= seq![180i32]);
                }
            } else {
                if flags[3] {
                    assert(flags =~= seq![false, false, false, true]);
                    assert(selected(flags) =~= seq![270i32]);
                } else {
                    assert(flags =~= seq![false, false, false, false]);
                    assert(selected(flags) =~= Seq::<i32>::empty());
                }
            }
        }
    }
    let chosen = selected(flags);
    assert(chosen.contains(0i32) == flags[0]) by {
        if flags[0] {
            assert(chosen[0] == 0i32);
        }
    }
    assert(chosen.contains(90i32) == flags[1]) by {
        if flags[1] {
            let k = if flags[0] { 1int } else { 0int };
            assert(chosen[k] == 90i32);
        }
    }
    assert(chosen.contains(180i32) == flags[2]) by {
        if flags[2] {
            let k = (if flags[0] { 1int } else { 0int }) + (if flags[1] { 1int } else { 0int });
            assert(chosen[k] == 180i32);
        }
    }
    assert(chosen.contains(270i32) == flags[3]) by {
        if flags[3] {
            let k = (if flags[0] { 1int } else { 0int }) + (if flags[1] { 1int } else { 0int }) + (
            if flags[2] {
                1int
            } else {
                0int
            });
            assert(chosen[k] == 270i32);
        }
    }
    assert(direction_flags(chosen) =~= flags);
}

/// A written direction list reads back as the ticked directions.
proof fn lemma_directions_read_back(flags: Seq<bool>)
    requires
        flags.len() == 4,
        selected(flags).len() > 0,
    ensures
        directions_value("["@ + direction_list(selected(flags)) + "]"@) == Ok::<Seq<i32>, Seq<char>>(
            selected(flags),
        ),
        plain("["@ + direction_list(selected(flags)) + "]"@),
{
    reveal_strlit("[");
    reveal_strlit("]");
    let chosen = selected(flags);
    let list = direction_list(chosen);
    let value = "["@ + list + "]"@;
    lemma_list_splits(chosen);
    lemma_integers_read_back(chosen);
    lemma_selected(flags);
    lemma_ascending_directions(chosen);
    lemma_trim_plain(list);
    assert(value.subrange(1, value.len() - 1) =~= list);
    assert(value[0] == '[');
    assert(value.last() == ']');
}

/// An algorithm's name reads back as the algorithm.
proof fn lemma_algorithm_reads_back(algorithm: TextureAlgorithm)
    ensures
        algorithm_named(algorithm_name(algorithm)) == Some(algorithm),
        plain(algorithm_name(algorithm)),
{
    reveal_strlit("Vanilla-1");
    reveal_strlit("Vanilla-2");
    reveal_strlit("Vanilla-3");
    reveal_strlit("Sodium-1");
    reveal_strlit("Sodium-2");
    reveal_strlit("vanilla-1");
    reveal_strlit("vanilla-2");
    reveal_strlit("vanilla-3");
    reveal_strlit("sodium-1");
    reveal_strlit("sodium-2");
    let name = algorithm_name(algorithm);
    let lowered = lowercase(name);
    match algorithm {
        TextureAlgorithm::Vanilla1 => assert(lowered =~= "vanilla-1"@),
        TextureAlgorithm::Vanilla2 => {
            assert(lowered =~= "vanilla-2"@);
            assert(lowered[8] != "vanilla-1"@[8]);
        },
        TextureAlgorithm::Vanilla3 => {
            assert(lowered =~= "vanilla-3"@);
            assert(lowered[8] != "vanilla-1"@[8]);
            assert(lowered[8] != "vanilla-2"@[8]);
        },
        TextureAlgorithm::Sodium1 => assert(lowered =~= "sodium-1"@),
        TextureAlgorithm::Sodium2 => {
            assert(lowered =~= "sodium-2"@);
            assert(lowered[7] != "sodium-1"@[7]);
        },
    }
}

/// A scan order's word reads back as the order.
proof fn lemma_order_reads_back(order: ScanOrder)
    ensures
        lowercase(order_word(order)) == order_word(order),
        plain(order_word(order)),
        order_word(order) == "linear"@ <==> order == ScanOrder::Linear,
        order_word(order) == "spiral"@ <==> order == ScanOrder::Spiral,
{
    reveal_strlit("linear");
    reveal_strlit("spiral");
    assert(lowercase(order_word(order)) =~= order_word(order));
    assert("linear"@[0] != "spiral"@[0]);
}

/// A flag's word reads back as the flag.
proof fn lemma_flag_reads_back(flag: bool)
    ensures
        plain(flag_word(flag)),
        flag_word(flag) == "true"@ <==> flag,
        flag_word(flag) == "false"@ <==> !flag,
{
    reveal_strlit("true");
    reveal_strlit("false");
}

/// A `key = value` line applies the setting `key`.
proof fn lemma_setting_line(config: crate::config::ConfigView, key: Seq<char>, value: Seq<char>)
    requires
        solid(key),
        !key.contains('='),
        key[0] != '#' && key[0] != '[',
        plain(value),
    ensures
        trim(key + " = "@ + value) == key + " = "@ + value,
        (key + " = "@ + value)[0] != '#' && (key + " = "@ + value)[0] != '[',
        apply_setting(config, key + " = "@ + value) == setting_value(config, key, value),
{
    reveal_strlit(" = ");
    let line = key + " = "@ + value;
    let k: int = key.len() as int + 1;
    assert forall|i: int| 0 <= i < k implies line[i] != '=' by {
        if i < key.len() {
            assert(line[i] == key[i]);
            assert(key.contains(key[i]));
        }
    }
    lemma_find_char_skip(line, '=', k);
    assert(line.skip(k)[0] == '=');
    assert(find_char(line, '=') == k);
    assert(line.take(k) =~= key + seq![' ']);
    assert(line.skip(k + 1) =~= seq![' '] + value);
    lemma_trim_spaced(key);
    lemma_trim_spaced(value);
    lemma_trim_plain(line);
}

/// The setting keys, told apart by their first characters and lengths.
proof fn lemma_keys()
    ensures
        "algorithm"@[0] == 'a' && "algorithm"@.len() == 9,
        "scanOrder"@[0] == 's' && "scanOrder"@.len() == 9,
        "directions"@.len() == 10,
        "xRange"@[0] == 'x' && "xRange"@.len() == 6,
        "yRange"@[0] == 'y' && "yRange"@.len() == 6,
        "zRange"@[0] == 'z' && "zRange"@.len() == 6,
        "errorTolerance"@.len() == 14,
        "cpuTileSize"@[0] == 'c' && "cpuTileSize"@.len() == 11,
        "gpuTileSize"@[0] == 'g' && "gpuTileSize"@.len() == 11,
        "verbose"@.len() == 7,
{
    reveal_strlit("algorithm");
    reveal_strlit("scanOrder");
    reveal_strlit("directions");
    reveal_strlit("xRange");
    reveal_strlit("yRange");
    reveal_strlit("zRange");
    reveal_strlit("errorTolerance");
    reveal_strlit("cpuTileSize");
    reveal_strlit("gpuTileSize");
    reveal_strlit("verbose");
}

/// `key = ` is the key followed by ` = `, and the key is a single word
/// without `=` that starts neither a comment nor a section.
proof fn lemma_key_prefix(key: Seq<char>, prefix: Seq<char>)
    requires
        prefix == key + " = "@,
        key.len() > 0,
        forall|i: int| 0 <= i < key.len() ==> ('A' <= #[trigger] key[i] <= 'Z') || ('a' <= key[i] <= 'z'),
    ensures
        solid(key),
        !key.contains('='),
        key[0] != '#' && key[0] != '[',
{
    assert forall|i: int| 0 <= i < key.len() implies !is_space(#[trigger] key[i]) by {}
    assert(!key.contains('=')) by {
        if key.contains('=') {
            let j = choose|j: int| 0 <= j < key.len() && key[j] == '=';
            assert(('A' <= key[j] <= 'Z') || ('a' <= key[j] <= 'z'));
        }
    }
}

proof fn lemma_setting_literals()
    ensures
        "algorithm = "@ == "algorithm"@ + " = "@,
        "scanOrder = "@ == "scanOrder"@ + " = "@,
        "directions = "@ == "directions"@ + " = "@,
        "xRange = "@ == "xRange"@ + " = "@,
        "yRange = "@ == "yRange"@ + " = "@,
        "zRange = "@ == "zRange"@ + " = "@,
        "errorTolerance = "@ == "errorTolerance"@ + " = "@,
        "cpuTileSize = "@ == "cpuTileSize"@ + " = "@,
        "gpuTileSize = "@ == "gpuTileSize"@ + " = "@,
        "verbose = "@ == "verbose"@ + " = "@,
        forall|i: int| 0 <= i < "algorithm"@.len() ==> ('A' <= #[trigger] "algorithm"@[i] <= 'Z') || ('a' <= "algorithm"@[i] <= 'z'),
        forall|i: int| 0 <= i < "scanOrder"@.len() ==> ('A' <= #[trigger] "scanOrder"@[i] <= 'Z') || ('a' <= "scanOrder"@[i] <= 'z'),
        forall|i: int| 0 <= i < "directions"@.len() ==> ('A' <= #[trigger] "directions"@[i] <= 'Z') || ('a' <= "directions"@[i] <= 'z'),
        forall|i: int| 0 <= i < "xRange"@.len() ==> ('A' <= #[trigger] "xRange"@[i] <= 'Z') || ('a' <= "xRange"@[i] <= 'z'),
        forall|i: int| 0 <= i < "yRange"@.len() ==> ('A' <= #[trigger] "yRange"@[i] <= 'Z') || ('a' <= "yRange"@[i] <= 'z'),
        forall|i: int| 0 <= i < "zRange"@.len() ==> ('A' <= #[trigger] "zRange"@[i] <= 'Z') || ('a' <= "zRange"@[i] <= 'z'),
        forall|i: int| 0 <= i < "errorTolerance"@.len() ==> ('A' <= #[trigger] "errorTolerance"@[i] <= 'Z') || ('a' <= "errorTolerance"@[i] <= 'z'),
        forall|i: int| 0 <= i < "cpuTileSize"@.len() ==> ('A' <= #[trigger] "cpuTileSize"@[i] <= 'Z') || ('a' <= "cpuTileSize"@[i] <= 'z'),
        forall|i: int| 0 <= i < "gpuTileSize"@.len() ==> ('A' <= #[trigger] "gpuTileSize"@[i] <= 'Z') || ('a' <= "gpuTileSize"@[i] <= 'z'),
        forall|i: int| 0 <= i < "verbose"@.len() ==> ('A' <= #[trigger] "verbose"@[i] <= 'Z') || ('a' <= "verbose"@[i] <= 'z'),
{
    reveal_strlit(" = ");
    reveal_strlit("algorithm");
    reveal_strlit("scanOrder");
    reveal_strlit("directions");
    reveal_strlit("xRange");
    reveal_strlit("yRange");
    reveal_strlit("zRange");
    reveal_strlit("errorTolerance");
    reveal_strlit("cpuTileSize");
    reveal_strlit("gpuTileSize");
    reveal_strlit("verbose");
    reveal_strlit("algorithm = ");
    reveal_strlit("scanOrder = ");
    reveal_strlit("directions = ");
    reveal_strlit("xRange = ");
    reveal_strlit("yRange = ");
    reveal_strlit("zRange = ");
    reveal_strlit("errorTolerance = ");
    reveal_strlit("cpuTileSize = ");
    reveal_strlit("gpuTileSize = ");
    reveal_strlit("verbose = ");
    assert("algorithm = "@ =~= "algorithm"@ + " = "@);
    assert("scanOrder = "@ =~= "scanOrder"@ + " = "@);
    assert("directions = "@ =~= "directions"@ + " = "@);
    assert("xRange = "@ =~= "xRange"@ + " = "@);
    assert("yRange = "@ =~= "yRange"@ + " = "@);
    assert("zRange = "@ =~= "zRange"@ + " = "@);
    assert("errorTolerance = "@ =~= "errorTolerance"@ + " = "@);
    assert("cpuTileSize = "@ =~= "cpuTileSize"@ + " = "@);
    assert("gpuTileSize = "@ =~= "gpuTileSize"@ + " = "@);
    assert("verbose = "@ =~= "verbose"@ + " = "@);
}

/// A `key = value` line outside the filter section applies the setting.
proof fn lemma_read_setting(state: ReadState, key: Seq<char>, value: Seq<char>)
    requires
        !state.in_filter,
        key.len() > 0,
        forall|i: int| 0 <= i < key.len() ==> ('A' <= #[trigger] key[i] <= 'Z') || ('a' <= key[i] <= 'z'),
        plain(value),
    ensures
        read_line(state, key + " = "@ + value) == match setting_value(state.config, key, value) {
            Ok(config) => Ok::<ReadState, Seq<char>>(ReadState { config, ..state }),
            Err(problem) => Err(problem),
        },
{
    lemma_key_prefix(key, key + " = "@);
    lemma_setting_line(state.config, key, value);
    let line = key + " = "@ + value;
    assert(trim(line).len() > 0);
}

proof fn lemma_line_algorithm(state: ReadState, algorithm: TextureAlgorithm)
    requires
        !state.in_filter,
    ensures
        read_line(state, "algorithm = "@ + algorithm_name(algorithm)) == Ok::<ReadState, Seq<char>>(
            ReadState { config: ConfigView { algorithm, ..state.config }, ..state },
        ),
{
    lemma_setting_literals();
    lemma_keys();
    lemma_algorithm_reads_back(algorithm);
    assert("algorithm = "@ + algorithm_name(algorithm) == "algorithm"@ + " = "@ + algorithm_name(algorithm));
    lemma_read_setting(state, "algorithm"@, algorithm_name(algorithm));
}

proof fn lemma_line_order(state: ReadState, order: ScanOrder)
    requires
        !state.in_filter,
    ensures
        read_line(state, "scanOrder = "@ + order_word(order)) == Ok::<ReadState, Seq<char>>(
            ReadState { config: ConfigView { scan_order: order, ..state.config }, ..state },
        ),
{
    lemma_setting_literals();
    lemma_keys();
    lemma_order_reads_back(order);
    assert("scanOrder = "@ + order_word(order) == "scanOrder"@ + " = "@ + order_word(order));
    lemma_read_setting(state, "scanOrder"@, order_word(order));
    assert("scanOrder"@ != "algorithm"@);
}

proof fn lemma_line_directions(state: ReadState, flags: Seq<bool>)
    requires
        !state.in_filter,
        flags.len() == 4,
        selected(flags).len() > 0,
    ensures
        read_line(state, "directions = ["@ + direction_list(selected(flags)) + "]"@) == Ok::<
            ReadState,
            Seq<char>,
        >(ReadState { config: ConfigView { directions: selected(flags), ..state.config }, ..state }),
{
    reveal_strlit("directions = [");
    reveal_strlit("[");
    reveal_strlit("directions");
    reveal_strlit(" = ");
    lemma_setting_literals();
    lemma_keys();
    lemma_directions_read_back(flags);
    let value = "["@ + direction_list(selected(flags)) + "]"@;
    assert("directions = ["@ + direction_list(selected(flags)) + "]"@ =~= "directions"@ + " = "@
        + value);
    lemma_read_setting(state, "directions"@, value);
}

proof fn lemma_line_range(state: ReadState, key: Seq<char>, prefix: Seq<char>, range: IntRange)
    requires
        !state.in_filter,
        range.start < range.end,
        key == "xRange"@ || key == "yRange"@ || key == "zRange"@,
        prefix == key + " = "@,
    ensures
        read_line(state, prefix + pair_text(range.start as int, range.end as int)) == Ok::<
            ReadState,
            Seq<char>,
        >(
            ReadState {
                config: if key == "xRange"@ {
                    ConfigView { x_range: range, ..state.config }
                } else if key == "yRange"@ {
                    ConfigView { y_range: range, ..state.config }
                } else {
                    ConfigView { z_range: range, ..state.config }
                },
                ..state
            },
        ),
{
    lemma_setting_literals();
    lemma_keys();
    lemma_pair_reads_back(range.start as int, range.end as int, -2147483648, 2147483647);
    let value = pair_text(range.start as int, range.end as int);
    assert(prefix + value == key + " = "@ + value);
    lemma_read_setting(state, key, value);
    assert(key != "algorithm"@ && key != "scanOrder"@ && key != "directions"@);
    if key == "yRange"@ {
        assert(key != "xRange"@);
    }
    if key == "zRange"@ {
        assert(key != "xRange"@ && key != "yRange"@);
    }
}

proof fn lemma_line_tolerance(state: ReadState, tolerance: i32)
    requires
        !state.in_filter,
        tolerance >= 0,
    ensures
        read_line(state, "errorTolerance = "@ + decimal(tolerance as int)) == Ok::<ReadState, Seq<char>>(
            ReadState { config: ConfigView { error_tolerance: tolerance, ..state.config }, ..state },
        ),
{
    lemma_setting_literals();
    lemma_keys();
    lemma_bounded_reads_back(tolerance as int, 0, 2147483647);
    let value = decimal(tolerance as int);
    assert("errorTolerance = "@ + value == "errorTolerance"@ + " = "@ + value);
    lemma_read_setting(state, "errorTolerance"@, value);
    let key = "errorTolerance"@;
    assert(key != "algorithm"@ && key != "scanOrder"@ && key != "directions"@ && key != "xRange"@
        && key != "yRange"@ && key != "zRange"@);
}

proof fn lemma_line_tile(state: ReadState, key: Seq<char>, prefix: Seq<char>, tile: TileSize)
    requires
        !state.in_filter,
        tile.x >= 1 && tile.z >= 1,
        key == "cpuTileSize"@ || key == "gpuTileSize"@,
        prefix == key + " = "@,
    ensures
        read_line(state, prefix + pair_text(tile.x as int, tile.z as int)) == Ok::<
            ReadState,
            Seq<char>,
        >(
            ReadState {
                config: if key == "cpuTileSize"@ {
                    ConfigView { cpu_tile_size: tile, ..state.config }
                } else {
                    ConfigView { gpu_tile_size: tile, ..state.config }
                },
                ..state
            },
        ),
{
    lemma_setting_literals();
    lemma_keys();
    lemma_pair_reads_back(tile.x as int, tile.z as int, 1, 2147483647);
    let value = pair_text(tile.x as int, tile.z as int);
    assert(prefix + value == key + " = "@ + value);
    lemma_read_setting(state, key, value);
    assert(key != "algorithm"@ && key != "scanOrder"@ && key != "directions"@ && key != "xRange"@
        && key != "yRange"@ && key != "zRange"@ && key != "errorTolerance"@);
    if key == "gpuTileSize"@ {
        assert(key != "cpuTileSize"@);
    }
}

proof fn lemma_line_verbose(state: ReadState, verbose: bool)
    requires
        !state.in_filter,
    ensures
        read_line(state, "verbose = "@ + flag_word(verbose)) == Ok::<ReadState, Seq<char>>(
            ReadState { config: ConfigView { verbose, ..state.config }, ..state },
        ),
{
    lemma_setting_literals();
    lemma_keys();
    lemma_flag_reads_back(verbose);
    let value = flag_word(verbose);
    assert("verbose = "@ + value == "verbose"@ + " = "@ + value);
    lemma_read_setting(state, "verbose"@, value);
    let key = "verbose"@;
    assert(key != "algorithm"@ && key != "scanOrder"@ && key != "directions"@ && key != "xRange"@
        && key != "yRange"@ && key != "zRange"@ && key != "errorTolerance"@ && key
        != "cpuTileSize"@ && key != "gpuTileSize"@);
}

// ---------------------------------------------------------------------------
// Lines
// ---------------------------------------------------------------------------

/// Whether a text holds no newline.
pub open spec fn single_line(text: Seq<char>) -> bool {
    forall|i: int| 0 <= i < text.len() ==> #[trigger] text[i] != '\n'
}

proof fn lemma_single_concat(a: Seq<char>, b: Seq<char>)
    requires
        single_line(a),
        single_line(b),
    ensures
        single_line(a + b),
{
    assert forall|i: int| 0 <= i < (a + b).len() implies #[trigger] (a + b)[i] != '\n' by {
        if i < a.len() {
            assert((a + b)[i] == a[i]);
        } else {
            assert((a + b)[i] == b[i - a.len()]);
        }
    }
}

proof fn lemma_decimal_single(v: int)
    ensures
        single_line(decimal(v)),
{
    lemma_decimal_reads_back(v);
}

proof fn lemma_list_single(values: Seq<i32>)
    ensures
        single_line(direction_list(values)),
    decreases values.len(),
{
    reveal_strlit(", ");
    let parts = decimals(values);
    if values.len() == 1 {
        lemma_decimal_single(values[0] as int);
        assert(direction_list(values) == parts[0]);
    } else if values.len() > 1 {
        let rest = values.drop_last();
        lemma_list_single(rest);
        assert(decimals(rest) =~= parts.drop_last());
        lemma_decimal_single(values.last() as int);
        assert(direction_list(values) == joined(parts.drop_last(), ", "@) + ", "@ + parts.last());
        lemma_single_concat(direction_list(rest), ", "@);
        lemma_single_concat(direction_list(rest) + ", "@, parts.last());
    } else {
        assert(direction_list(values) =~= Seq::<char>::empty());
    }
}

proof fn lemma_pair_single(a: int, b: int)
    ensures
        single_line(pair_text(a, b)),
{
    reveal_strlit("(");
    reveal_strlit(", ");
    reveal_strlit(")");
    lemma_decimal_single(a);
    lemma_decimal_single(b);
    lemma_single_concat("("@, decimal(a));
    lemma_single_concat("("@ + decimal(a), ", "@);
    lemma_single_concat("("@ + decimal(a) + ", "@, decimal(b));
    lemma_single_concat("("@ + decimal(a) + ", "@ + decimal(b), ")"@);
}

proof fn lemma_row_single(info: RotationInfo)
    ensures
        single_line(row_line(info)),
{
    reveal_strlit(" ");
    reveal_strlit(" | ");
    lemma_marker(info.kind);
    lemma_decimal_single(info.x as int);
    lemma_decimal_single(info.y as int);
    lemma_decimal_single(info.z as int);
    lemma_decimal_single(info.rotation as int);
    reveal_strlit("side");
    reveal_strlit("netherrack-");
    reveal_strlit("up");
    reveal_strlit("down");
    reveal_strlit("north");
    reveal_strlit("south");
    reveal_strlit("east");
    reveal_strlit("west");
    let marker = kind_marker(info.kind);
    assert(single_line(marker)) by {
        if info.kind != RotationKind::StandardFourWay {
            let word = marker_word(info.kind);
            assert(single_line(word)) by {
                match info.kind {
                    RotationKind::Netherrack(face) => {
                        lemma_single_concat("netherrack-"@, face_word(face));
                    },
                    _ => {},
                }
            }
            lemma_single_concat(seq![' '], word);
        }
    }
    let line = row_line(info);
    lemma_single_concat(decimal(info.x as int), " "@);
    lemma_single_concat(decimal(info.x as int) + " "@, decimal(info.y as int));
    lemma_single_concat(decimal(info.x as int) + " "@ + decimal(info.y as int), " "@);
    lemma_single_concat(
        decimal(info.x as int) + " "@ + decimal(info.y as int) + " "@,
        decimal(info.z as int),
    );
    lemma_single_concat(
        decimal(info.x as int) + " "@ + decimal(info.y as int) + " "@ + decimal(info.z as int),
        " | "@,
    );
    lemma_single_concat(
        decimal(info.x as int) + " "@ + decimal(info.y as int) + " "@ + decimal(info.z as int)
            + " | "@,
        decimal(info.rotation as int),
    );
    lemma_single_concat(
        decimal(info.x as int) + " "@ + decimal(info.y as int) + " "@ + decimal(info.z as int)
            + " | "@ + decimal(info.rotation as int),
        marker,
    );
}

/// Lines written one after another split back into the same lines.
proof fn lemma_lines_split(lines: Seq<Seq<char>>, rest: Seq<char>)
    requires
        forall|i: int| 0 <= i < lines.len() ==> single_line(#[trigger] lines[i]),
    ensures
        lines_of(lines_text(lines) + rest) == lines + lines_of(rest),
    decreases lines.len(),
{
    reveal_strlit("\n");
    if lines.len() == 0 {
        assert(lines_text(lines) + rest =~= rest);
        assert(lines + lines_of(rest) =~= lines_of(rest));
    } else {
        let before = lines.drop_last();
        let last = lines.last();
        assert forall|i: int| 0 <= i < before.len() implies single_line(#[trigger] before[i]) by {
            assert(before[i] == lines[i]);
        }
        assert(single_line(lines[lines.len() - 1]));
        let tail = last + seq!['\n'] + rest;
        assert(lines_text(lines) + rest =~= lines_text(before) + tail);
        lemma_lines_split(before, tail);
        assert(!last.contains('\n')) by {
            if last.contains('\n') {
                let j = choose|j: int| 0 <= j < last.len() && last[j] == '\n';
                assert(last[j] != '\n');
            }
        }
        lemma_pieces_break(last, '\n', rest);
        assert(lines_of(tail) == seq![last] + lines_of(rest));
        assert(before + (seq![last] + lines_of(rest)) =~= lines + lines_of(rest));
    }
}

proof fn lemma_lines_text_concat(a: Seq<Seq<char>>, b: Seq<Seq<char>>)
    ensures
        lines_text(a + b) == lines_text(a) + lines_text(b),
    decreases b.len(),
{
    if b.len() == 0 {
        assert(a + b =~= a);
        assert(lines_text(a) + lines_text(b) =~= lines_text(a));
    } else {
        assert((a + b).drop_last() =~= a + b.drop_last());
        lemma_lines_text_concat(a, b.drop_last());
        assert(lines_text(a) + lines_text(b) =~= lines_text(a) + lines_text(b.drop_last()) + b.last()
            + "\n"@);
    }
}

/// The row lines of a filter.
pub open spec fn row_lines(rows: Seq<RotationInfo>) -> Seq<Seq<char>> {
    rows.map_values(|info: RotationInfo| row_line(info))
}

proof fn lemma_rows_text(rows: Seq<RotationInfo>)
    ensures
        rows_text(rows) == lines_text(row_lines(rows)),
    decreases rows.len(),
{
    if rows.len() > 0 {
        lemma_rows_text(rows.drop_last());
        assert(row_lines(rows).drop_last() =~= row_lines(rows.drop_last()));
    } else {
        assert(row_lines(rows) =~= Seq::<Seq<char>>::empty());
    }
}

proof fn lemma_settings_single(document: DocumentView)
    ensures
        forall|i: int|
            0 <= i < settings_lines(document).len() ==> single_line(
                #[trigger] settings_lines(document)[i],
            ),
{
    reveal_strlit("# Written by CoordsFinder GUI.");
    reveal_strlit("algorithm = ");
    reveal_strlit("scanOrder = ");
    reveal_strlit("directions = [");
    reveal_strlit("]");
    reveal_strlit("xRange = ");
    reveal_strlit("yRange = ");
    reveal_strlit("zRange = ");
    reveal_strlit("errorTolerance = ");
    reveal_strlit("cpuTileSize = ");
    reveal_strlit("gpuTileSize = ");
    reveal_strlit("verbose = ");
    reveal_strlit("[filter]");
    reveal_strlit("# x y z | variant [side|netherrack-<face>]");
    reveal_strlit("Vanilla-1");
    reveal_strlit("Vanilla-2");
    reveal_strlit("Vanilla-3");
    reveal_strlit("Sodium-1");
    reveal_strlit("Sodium-2");
    reveal_strlit("linear");
    reveal_strlit("spiral");
    reveal_strlit("true");
    reveal_strlit("false");
    let lines = settings_lines(document);
    let chosen = selected(document.directions);
    lemma_list_single(chosen);
    lemma_single_concat("directions = ["@, direction_list(chosen));
    lemma_single_concat("directions = ["@ + direction_list(chosen), "]"@);
    lemma_single_concat("algorithm = "@, algorithm_name(document.algorithm));
    lemma_single_concat("scanOrder = "@, order_word(document.scan_order));
    lemma_pair_single(document.x_range.start as int, document.x_range.end as int);
    lemma_pair_single(document.y_range.start as int, document.y_range.end as int);
    lemma_pair_single(document.z_range.start as int, document.z_range.end as int);
    lemma_pair_single(document.cpu_tile_size.x as int, document.cpu_tile_size.z as int);
    lemma_pair_single(document.gpu_tile_size.x as int, document.gpu_tile_size.z as int);
    lemma_single_concat(
        "xRange = "@,
        pair_text(document.x_range.start as int, document.x_range.end as int),
    );
    lemma_single_concat(
        "yRange = "@,
        pair_text(document.y_range.start as int, document.y_range.end as int),
    );
    lemma_single_concat(
        "zRange = "@,
        pair_text(document.z_range.start as int, document.z_range.end as int),
    );
    lemma_decimal_single(document.error_tolerance as int);
    lemma_single_concat("errorTolerance = "@, decimal(document.error_tolerance as int));
    lemma_single_concat(
        "cpuTileSize = "@,
        pair_text(document.cpu_tile_size.x as int, document.cpu_tile_size.z as int),
    );
    lemma_single_concat(
        "gpuTileSize = "@,
        pair_text(document.gpu_tile_size.x as int, document.gpu_tile_size.z as int),
    );
    lemma_single_concat("verbose = "@, flag_word(document.verbose));
    assert forall|i: int| 0 <= i < lines.len() implies single_line(#[trigger] lines[i]) by {
        assert(single_line(Seq::<char>::empty()));
    }
}

/// Comment lines and blank lines change nothing.
proof fn lemma_line_unchanged(state: ReadState, line: Seq<char>)
    requires
        line.len() == 0 || line == "# Written by CoordsFinder GUI."@ || line
            == "# x y z | variant [side|netherrack-<face>]"@,
    ensures
        read_line(state, line) == Ok::<ReadState, Seq<char>>(state),
{
    reveal_strlit("# Written by CoordsFinder GUI.");
    reveal_strlit("# x y z | variant [side|netherrack-<face>]");
    if line.len() > 0 {
        lemma_trim_plain(line);
    }
}

proof fn lemma_line_filter(state: ReadState)
    ensures
        read_line(state, "[filter]"@) == Ok::<ReadState, Seq<char>>(
            ReadState { in_filter: true, ..state },
        ),
{
    reveal_strlit("[filter]");
    lemma_trim_plain("[filter]"@);
}

/// What the config format can hold of a document: a direction ticked,
/// non-empty ranges, a non-negative tolerance, positive tile sizes, and
/// rows whose rotations their kind accepts.
pub open spec fn writable(document: DocumentView) -> bool {
    &&& document.directions.len() == 4
    &&& selected(document.directions).len() > 0
    &&& document.x_range.start < document.x_range.end
    &&& document.y_range.start < document.y_range.end
    &&& document.z_range.start < document.z_range.end
    &&& document.error_tolerance >= 0
    &&& document.cpu_tile_size.x >= 1 && document.cpu_tile_size.z >= 1
    &&& document.gpu_tile_size.x >= 1 && document.gpu_tile_size.z >= 1
    &&& forall|i: int|
        0 <= i < document.filter.len() ==> #[trigger] document.filter[i].rotation < rotation_limit(
            document.filter[i].kind,
        )
}

/// The configuration a document describes.
pub open spec fn config_of(document: DocumentView) -> ConfigView {
    ConfigView {
        algorithm: document.algorithm,
        scan_order: document.scan_order,
        directions: selected(document.directions),
        x_range: document.x_range,
        y_range: document.y_range,
        z_range: document.z_range,
        error_tolerance: document.error_tolerance,
        cpu_tile_size: document.cpu_tile_size,
        gpu_tile_size: document.gpu_tile_size,
        verbose: document.verbose,
        filter: document.filter,
    }
}

/// The states a reader passes through over the settings lines.
pub open spec fn settings_state(document: DocumentView, k: int) -> ReadState {
    let c0 = default_config();
    let c3 = ConfigView { algorithm: document.algorithm, ..c0 };
    let c4 = ConfigView { scan_order: document.scan_order, ..c3 };
    let c5 = ConfigView { directions: selected(document.directions), ..c4 };
    let c7 = ConfigView { x_range: document.x_range, ..c5 };
    let c8 = ConfigView { y_range: document.y_range, ..c7 };
    let c9 = ConfigView { z_range: document.z_range, ..c8 };
    let c11 = ConfigView { error_tolerance: document.error_tolerance, ..c9 };
    let c13 = ConfigView { cpu_tile_size: document.cpu_tile_size, ..c11 };
    let c14 = ConfigView { gpu_tile_size: document.gpu_tile_size, ..c13 };
    let c15 = ConfigView { verbose: document.verbose, ..c14 };
    let config = if k <= 2 {
        c0
    } else if k == 3 {
        c3
    } else if k == 4 {
        c4
    } else if k <= 6 {
        c5
    } else if k == 7 {
        c7
    } else if k == 8 {
        c8
    } else if k <= 10 {
        c9
    } else if k <= 12 {
        c11
    } else if k == 13 {
        c13
    } else if k == 14 {
        c14
    } else {
        c15
    };
    ReadState { config, in_filter: k >= 17 }
}

/// Reading settings line `k` moves the reader to the next state.
proof fn lemma_settings_line(document: DocumentView, k: int)
    requires
        writable(document),
        0 <= k < 18,
    ensures
        read_line(settings_state(document, k), settings_lines(document)[k]) == Ok::<
            ReadState,
            Seq<char>,
        >(settings_state(document, k + 1)),
{
    let settings = settings_lines(document);
    let state = settings_state(document, k);
    let next = settings_state(document, k + 1);
    if k == 0 || k == 1 || k == 5 || k == 9 || k == 11 || k == 15 || k == 17 {
        lemma_line_unchanged(state, settings[k]);
        assert(next == state);
    } else if k == 2 {
        lemma_line_algorithm(state, document.algorithm);
    } else if k == 3 {
        lemma_line_order(state, document.scan_order);
    } else if k == 4 {
        lemma_line_directions(state, document.directions);
    } else if k == 6 {
        lemma_setting_literals();
        lemma_line_range(state, "xRange"@, "xRange = "@, document.x_range);
    } else if k == 7 {
        lemma_setting_literals();
        lemma_keys();
        lemma_line_range(state, "yRange"@, "yRange = "@, document.y_range);
    } else if k == 8 {
        lemma_setting_literals();
        lemma_keys();
        lemma_line_range(state, "zRange"@, "zRange = "@, document.z_range);
    } else if k == 10 {
        lemma_line_tolerance(state, document.error_tolerance);
    } else if k == 12 {
        lemma_setting_literals();
        lemma_line_tile(state, "cpuTileSize"@, "cpuTileSize = "@, document.cpu_tile_size);
    } else if k == 13 {
        lemma_setting_literals();
        lemma_keys();
        lemma_line_tile(state, "gpuTileSize"@, "gpuTileSize = "@, document.gpu_tile_size);
    } else if k == 14 {
        lemma_line_verbose(state, document.verbose);
    } else {
        lemma_line_filter(state);
    }
}

proof fn lemma_read_step(lines: Seq<Seq<char>>, k: nat, state: ReadState, next: ReadState)
    requires
        k < lines.len(),
        read_lines(lines, k) == Ok::<ReadState, Seq<char>>(state),
        read_line(state, lines[k as int]) == Ok::<ReadState, Seq<char>>(next),
    ensures
        read_lines(lines, k + 1) == Ok::<ReadState, Seq<char>>(next),
{
}

proof fn lemma_read_settings_upto(document: DocumentView, lines: Seq<Seq<char>>, count: nat)
    requires
        writable(document),
        count <= 18,
        lines.len() >= 18,
        forall|k: int| 0 <= k < 18 ==> lines[k] == #[trigger] settings_lines(document)[k],
    ensures
        read_lines(lines, count) == Ok::<ReadState, Seq<char>>(settings_state(document, count as int)),
    decreases count,
{
    if count > 0 {
        lemma_read_settings_upto(document, lines, (count - 1) as nat);
        lemma_settings_line(document, count - 1);
        assert(lines[count - 1] == settings_lines(document)[count - 1]);
        lemma_read_step(
            lines,
            (count - 1) as nat,
            settings_state(document, count - 1),
            settings_state(document, count as int),
        );
    }
}

proof fn lemma_read_rows(document: DocumentView, lines: Seq<Seq<char>>, count: nat)
    requires
        writable(document),
        count <= document.filter.len(),
        lines.len() >= 18 + count,
        read_lines(lines, 18) == Ok::<ReadState, Seq<char>>(settings_state(document, 18)),
        forall|i: int|
            0 <= i < count ==> lines[18 + i] == row_line(#[trigger] document.filter[i]),
    ensures
        read_lines(lines, 18 + count) == Ok::<ReadState, Seq<char>>(
            ReadState {
                config: ConfigView {
                    filter: document.filter.take(count as int),
                    ..settings_state(document, 18).config
                },
                in_filter: true,
            },
        ),
    decreases count,
{
    let base = settings_state(document, 18).config;
    if count == 0 {
        assert(document.filter.take(0) =~= base.filter);
        assert(ConfigView { filter: document.filter.take(0), ..base } == base);
    } else {
        let m = (count - 1) as nat;
        lemma_read_rows(document, lines, m);
        let info = document.filter[m as int];
        assert(info.rotation < rotation_limit(info.kind));
        lemma_row_reads_back(info);
        assert(lines[18 + m as int] == row_line(info));
        let state = ReadState {
            config: ConfigView { filter: document.filter.take(m as int), ..base },
            in_filter: true,
        };
        let next = ReadState {
            config: ConfigView { filter: document.filter.take(count as int), ..base },
            in_filter: true,
        };
        assert(document.filter.take(m as int).push(info) =~= document.filter.take(count as int));
        assert(read_line(state, lines[18 + m as int]) == Ok::<ReadState, Seq<char>>(next));
        lemma_read_step(lines, 18 + m, state, next);
    }
}

/// Saving never changes what a document means: the config text written for
/// a document the format can hold reads back as exactly that document's
/// settings and rows, and it is accepted or refused as those settings and
/// rows are when the filter is compiled.
pub proof fn lemma_saved_document_reads_back(document: DocumentView)
    requires
        writable(document),
    ensures
        parsed_text(conf_text(document)) == match prepared_filters(
            document.filter,
            document.algorithm,
            selected(document.directions),
            document.error_tolerance,
        ) {
            Ok(_) => Ok::<ConfigView, Seq<char>>(config_of(document)),
            Err(failure) => Err(failure_message(failure, document.error_tolerance)),
        },
        document_of(config_of(document)) == document,
{
    let settings = settings_lines(document);
    let rows = row_lines(document.filter);
    let all = settings + rows;
    let n = document.filter.len();
    lemma_rows_text(document.filter);
    lemma_lines_text_concat(settings, rows);
    assert(conf_text(document) == lines_text(all) + Seq::<char>::empty());
    lemma_settings_single(document);
    assert forall|i: int| 0 <= i < all.len() implies single_line(#[trigger] all[i]) by {
        if i < 18 {
            assert(all[i] == settings[i]);
        } else {
            assert(all[i] == row_line(document.filter[i - 18]));
            lemma_row_single(document.filter[i - 18]);
        }
    }
    lemma_lines_split(all, Seq::empty());
    lemma_pieces_single(Seq::<char>::empty(), '\n');
    let lines = lines_of(conf_text(document));
    assert(lines == all + seq![Seq::<char>::empty()]);
    assert(lines.len() == 18 + n + 1);
    assert forall|k: int| 0 <= k < 18 implies lines[k] == #[trigger] settings_lines(document)[k] by {
        assert(lines[k] == all[k]);
    }
    lemma_read_settings_upto(document, lines, 18);
    assert forall|i: int| 0 <= i < n implies lines[18 + i] == row_line(
        #[trigger] document.filter[i],
    ) by {
        assert(lines[18 + i] == all[18 + i]);
    }
    lemma_read_rows(document, lines, n);
    let base = settings_state(document, 18).config;
    let state = ReadState {
        config: ConfigView { filter: document.filter.take(n as int), ..base },
        in_filter: true,
    };
    assert(lines[18 + n as int] == Seq::<char>::empty());
    lemma_line_unchanged(state, lines[18 + n as int]);
    lemma_read_step(lines, 18 + n, state, state);
    assert(document.filter.take(n as int) =~= document.filter);
    assert(state.config =~= config_of(document));
    assert(read_lines(lines, lines.len()) == Ok::<ReadState, Seq<char>>(state));
    lemma_selected(document.directions);
    assert(document_of(config_of(document)) =~= document);
}


/// Two strictly ascending lists that hold the same values are the same list.
proof fn lemma_ascending_unique(a: Seq<i32>, b: Seq<i32>)
    requires
        forall|i: int, j: int| 0 <= i < j < a.len() ==> a[i] < a[j],
        forall|i: int, j: int| 0 <= i < j < b.len() ==> b[i] < b[j],
        forall|x: i32| #![trigger a.contains(x)] #![trigger b.contains(x)] a.contains(x) <==> b.contains(x),
    ensures
        a == b,
    decreases a.len(),
{
    if a.len() == 0 {
        if b.len() > 0 {
            assert(b.contains(b[0]));
        }
        assert(a =~= b);
    } else {
        assert(a.contains(a[0]));
        let x = a.last();
        let y = b.last();
        assert(a.contains(x));
        assert(b.contains(y));
        let i = choose|i: int| 0 <= i < b.len() && b[i] == x;
        if i < b.len() - 1 {
            assert(b[i] < b[b.len() - 1]);
        }
        let j = choose|j: int| 0 <= j < a.len() && a[j] == y;
        if j < a.len() - 1 {
            assert(a[j] < a[a.len() - 1]);
        }
        assert(x == y);
        let ra = a.drop_last();
        let rb = b.drop_last();
        assert forall|v: i32| #![trigger ra.contains(v)] #![trigger rb.contains(v)] ra.contains(v) <==> rb.contains(v) by {
            if ra.contains(v) {
                let k = choose|k: int| 0 <= k < ra.len() && ra[k] == v;
                assert(a[k] == v && a[k] < a[a.len() - 1]);
                assert(a.contains(v));
                let m = choose|m: int| 0 <= m < b.len() && b[m] == v;
                assert(m != b.len() - 1);
                assert(rb[m] == v);
            }
            if rb.contains(v) {
                let k = choose|k: int| 0 <= k < rb.len() && rb[k] == v;
                assert(b[k] == v && b[k] < b[b.len() - 1]);
                assert(b.contains(v));
                let m = choose|m: int| 0 <= m < a.len() && a[m] == v;
                assert(m != a.len() - 1);
                assert(ra[m] == v);
            }
        }
        assert forall|p: int, q: int| 0 <= p < q < ra.len() implies ra[p] < ra[q] by {
            assert(ra[p] == a[p] && ra[q] == a[q]);
        }
        assert forall|p: int, q: int| 0 <= p < q < rb.len() implies rb[p] < rb[q] by {
            assert(rb[p] == b[p] && rb[q] == b[q]);
        }
        lemma_ascending_unique(ra, rb);
        assert(a =~= ra.push(x));
        assert(b =~= rb.push(y));
    }
}

/// A strictly ascending list of known directions is what its flags select.
proof fn lemma_flags_select(directions: Seq<i32>)
    requires
        forall|i: int| 0 <= i < directions.len() ==> known_direction(#[trigger] directions[i]),
        forall|i: int, j: int|
            0 <= i < j < directions.len() ==> directions[i] < directions[j],
    ensures
        selected(direction_flags(directions)) == directions,
{
    let flags = direction_flags(directions);
    lemma_selected(flags);
    let chosen = selected(flags);
    let again = direction_flags(chosen);
    assert(again[0] == flags[0] && again[1] == flags[1] && again[2] == flags[2] && again[3]
        == flags[3]);
    assert forall|x: i32| #![trigger directions.contains(x)] #![trigger chosen.contains(x)] directions.contains(x) <==> chosen.contains(x) by {
        if directions.contains(x) {
            let k = choose|k: int| 0 <= k < directions.len() && directions[k] == x;
            assert(known_direction(directions[k]));
        }
        if chosen.contains(x) {
            let k = choose|k: int| 0 <= k < chosen.len() && chosen[k] == x;
            assert(known_direction(chosen[k]));
        }
    }
    lemma_ascending_unique(directions, chosen);
}

/// Every configuration that parses survives a save: the document made from
/// it, written out and read again, is the same configuration. This holds
/// when its directions are listed in ascending order, the order in which a
/// document writes them.
pub proof fn lemma_parsed_config_survives_a_save(text: Seq<char>, config: ConfigView)
    requires
        parsed_text(text) == Ok::<ConfigView, Seq<char>>(config),
        forall|i: int, j: int|
            0 <= i < j < config.directions.len() ==> config.directions[i] < config.directions[j],
    ensures
        parsed_text(conf_text(document_of(config))) == Ok::<ConfigView, Seq<char>>(config),
{
    lemma_parsed_is_readable(text);
    lemma_flags_select(config.directions);
    let document = document_of(config);
    assert(config_of(document) =~= config);
    lemma_saved_document_reads_back(document);
}

/// The rows view and the grid never disagree: applying a document's own
/// rows text in the rows editor reads back exactly the rows it already
/// has, whenever those rows compile under the document's settings.
pub proof fn lemma_rows_text_reads_back(document: DocumentView)
    requires
        writable(DocumentView { filter: document.filter, ..probe_document(document) }),
    ensures
        prepared_filters(
            document.filter,
            document.algorithm,
            selected(probe_document(document).directions),
            document.error_tolerance,
        ) is Ok ==> (parsed_text(conf_text(probe_document(document)) + rows_text(document.filter))
            matches Ok(config) && config.filter == document.filter),
{
    let probe = probe_document(document);
    let full = DocumentView { filter: document.filter, ..probe };
    assert(settings_lines(probe) =~= settings_lines(full));
    assert(rows_text(probe.filter) =~= Seq::<char>::empty());
    assert(conf_text(probe) + rows_text(document.filter) =~= conf_text(full));
    lemma_saved_document_reads_back(full);
}

} // verus!
