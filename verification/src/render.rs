//! The pure part of rendering: which files a render run touches, and how a
//! scene file is classified for evaluation.

use vstd::prelude::*;

use crate::FrameSequenceError;
use crate::chars::to_char_vec;
use crate::expand::{as_ints, dedup_frames, expand_parts_frames};
use crate::frame_sequence_parser::{
    SpecParseResult, parse_frame_sequence, parts_fit, spec_parse,
};
use crate::rdl_cli::Render;
use crate::template::{exec_find_at, find_at, spec_substitute, substitute_frame_number};

verus! {

/// A scene file whose name ends in `.lua` is a script; everything else is
/// an api stream.
pub open spec fn is_lua_file(s: Seq<char>) -> bool {
    s.len() >= 4 && s.subrange(s.len() - 4, s.len() as int) == ".lua"@
}

/// The evaluation type a scene file gets: `lua` for a `.lua` script,
/// `apistream` otherwise.
pub fn stream_type_for_file(file_name: &str) -> (r: &'static str)
    ensures
        is_lua_file(file_name@) ==> r@ == "lua"@,
        !is_lua_file(file_name@) ==> r@ == "apistream"@,
{
    proof {
        reveal_strlit(".lua");
    }
    let v = to_char_vec(file_name);
    let n = v.len();
    if n >= 4 && v[n - 4] == '.' && v[n - 3] == 'l' && v[n - 2] == 'u' && v[n - 1] == 'a' {
        proof {
            assert(file_name@.subrange(n - 4, n as int) =~= ".lua"@);
        }
        "lua"
    } else {
        proof {
            if is_lua_file(file_name@) {
                assert(file_name@.subrange(n - 4, n as int)[0] == '.');
                assert(file_name@.subrange(n - 4, n as int)[1] == 'l');
                assert(file_name@.subrange(n - 4, n as int)[2] == 'u');
                assert(file_name@.subrange(n - 4, n as int)[3] == 'a');
            }
        }
        "apistream"
    }
}

/// The context option a render or watch run hands the renderer: the cloud
/// flag wins and rides as the integer value `1`, otherwise a chosen
/// collective names itself, otherwise nothing is added.
pub fn render_context_settings(cloud: bool, collective: &Option<String>) -> (r: Option<
    (String, String),
>)
    ensures
        cloud ==> (r matches Some(p) && p.0@ == "cloud"@ && p.1@ == "1"@),
        !cloud ==> match collective {
            Option::Some(c) => (r matches Some(p) && p.0@ == "collective"@ && p.1@ == c@),
            Option::None => r is None,
        },
{
    if cloud {
        Some((String::from_str("cloud"), String::from_str("1")))
    } else {
        match collective {
            Some(c) => Some((String::from_str("collective"), c.clone())),
            None => None,
        }
    }
}

/// The views of a list of strings.
pub open spec fn string_views(s: Seq<String>) -> Seq<Seq<char>> {
    s.map_values(|x: String| x@)
}

/// The output names one file template stands for: one per frame when it
/// holds a placeholder, the file itself otherwise.
pub open spec fn target_names_for(file: Seq<char>, frames: Seq<int>) -> Seq<Seq<char>> {
    if find_at(file, 0) < file.len() {
        Seq::new(frames.len(), |i: int| spec_substitute(file, frames[i]))
    } else {
        seq![file]
    }
}

/// The output names of all file templates, concatenated in order.
pub open spec fn all_target_names(files: Seq<Seq<char>>, frames: Seq<int>) -> Seq<Seq<char>>
    decreases files.len(),
{
    if files.len() == 0 {
        seq![]
    } else {
        all_target_names(files.drop_last(), frames) + target_names_for(files.last(), frames)
    }
}

/// Expands every file template against the frame list: a template with a
/// placeholder becomes one name per frame, a plain file stays itself.
pub fn frame_file_names(files: &Vec<String>, frames: &Vec<isize>) -> (out: Vec<String>)
    ensures
        string_views(out@) == all_target_names(string_views(files@), as_ints(frames@)),
{
    let ghost gfiles = string_views(files@);
    let ghost gframes = as_ints(frames@);
    let mut out: Vec<String> = Vec::new();
    let mut i: usize = 0;
    proof {
        assert(string_views(out@) =~= all_target_names(gfiles.take(0), gframes));
    }
    while i < files.len()
        invariant
            gfiles == string_views(files@),
            gframes == as_ints(frames@),
            i <= files@.len(),
            string_views(out@) == all_target_names(gfiles.take(i as int), gframes),
        decreases files@.len() - i,
    {
        let ghost before = string_views(out@);
        let ghost target = target_names_for(gfiles[i as int], gframes);
        let file = &files[i];
        let t = to_char_vec(file.as_str());
        let p = exec_find_at(&t, 0);
        if p < t.len() {
            let mut j: usize = 0;
            while j < frames.len()
                invariant
                    gframes == as_ints(frames@),
                    j <= frames@.len(),
                    target == target_names_for(string_views(files@)[i as int], gframes),
                    i < files@.len(),
                    find_at(string_views(files@)[i as int], 0) < string_views(
                        files@,
                    )[i as int].len(),
                    t@ == files@[i as int]@,
                    string_views(out@) == before + target.take(j as int),
                decreases frames@.len() - j,
            {
                out.push(substitute_frame_number(files[i].as_str(), frames[j]));
                proof {
                    assert(target[j as int] == spec_substitute(t@, gframes[j as int]));
                    assert(target.take(j + 1) =~= target.take(j as int).push(target[j as int]));
                    assert(string_views(out@) =~= (before + target.take(j as int)).push(
                        target[j as int],
                    ));
                    assert(string_views(out@) =~= before + target.take(j + 1));
                }
                j = j + 1;
            }
            proof {
                assert(target.take(target.len() as int) =~= target);
            }
        } else {
            out.push(file.clone());
            proof {
                assert(target =~= seq![gfiles[i as int]]);
                assert(string_views(out@) =~= before + target);
            }
        }
        proof {
            assert(gfiles.take(i + 1).drop_last() =~= gfiles.take(i as int));
            assert(gfiles.take(i + 1).last() == gfiles[i as int]);
        }
        i = i + 1;
    }
    proof {
        assert(gfiles.take(gfiles.len() as int) =~= gfiles);
    }
    out
}

/// The whole render plan: parses the frame-sequence expression of the
/// render options, expands it, and substitutes the frames into every file
/// template.  Without a frame expression the plan holds each plain file
/// once and nothing for templates with placeholders.
pub fn render_file_names(args: &Render) -> (r: Result<Vec<String>, FrameSequenceError>)
    ensures
        ({
            match args.frames {
                Option::None => r is Ok && string_views(r.unwrap()@) == all_target_names(
                    string_views(args.file@),
                    Seq::<int>::empty(),
                ),
                Option::Some(expr) => match spec_parse(expr@) {
                    SpecParseResult::Failed(p) => r == Result::<
                        Vec<String>,
                        FrameSequenceError,
                    >::Err(FrameSequenceError::SyntaxError { position: p as usize }),
                    SpecParseResult::Parsed(ps) => {
                        &&& (parts_fit(ps) ==> r is Ok && string_views(r.unwrap()@)
                            == all_target_names(
                            string_views(args.file@),
                            dedup_frames(expand_parts_frames(ps)),
                        ))
                        &&& (!parts_fit(ps) ==> r == Result::<
                            Vec<String>,
                            FrameSequenceError,
                        >::Err(FrameSequenceError::ExpansionError))
                    },
                },
            }
        }),
{
    let frames: Vec<isize> = match &args.frames {
        Some(expr) => match parse_frame_sequence(expr.as_str()) {
            Ok(f) => f,
            Err(e) => {
                return Err(e);
            },
        },
        None => Vec::new(),
    };
    proof {
        assert(as_ints(Seq::<isize>::empty()) =~= Seq::<int>::empty());
    }
    Ok(frame_file_names(&args.file, &frames))
}

} // verus!
