//! Pure pieces of the tool's top level: path normalization and the stream
//! settings that the cat command derives from its options.

use vstd::prelude::*;

use crate::chars::{push_char, to_char_vec};
use crate::rdl_cli::Cat;

verus! {

/// `s` with every backslash turned into a forward slash.
pub open spec fn slashed(s: Seq<char>) -> Seq<char> {
    Seq::new(
        s.len(),
        |i: int|
            if s[i] == '\\' {
                '/'
            } else {
                s[i]
            },
    )
}

/// What sanitizing a path must yield: slashes throughout, and the extended
/// `//?/` prefix in front of a drive-letter path.
pub open spec fn unc_sanitized(s: Seq<char>) -> Seq<char> {
    if s.len() >= 2 && s[1] == ':' {
        "//?/"@ + slashed(s)
    } else {
        slashed(s)
    }
}

/// Rewrites a path with forward slashes; a path with a drive letter gets
/// the extended-length `//?/` prefix.
pub fn _sanitize_path_to_unc(path: &str) -> (out: String)
    ensures
        out@ == unc_sanitized(path@),
{
    let v = to_char_vec(path);
    let mut s = if v.len() >= 2 && v[1] == ':' {
        String::from_str("//?/")
    } else {
        String::new()
    };
    let ghost prefix = s@;
    let mut i: usize = 0;
    while i < v.len()
        invariant
            v@ == path@,
            i <= v@.len(),
            s@ == prefix + slashed(v@).take(i as int),
        decreases v@.len() - i,
    {
        let c = v[i];
        if c == '\\' {
            push_char(&mut s, '/');
        } else {
            push_char(&mut s, c);
        }
        proof {
            assert(s@ =~= prefix + slashed(v@).take(i + 1));
        }
        i = i + 1;
    }
    proof {
        assert(slashed(v@).take(v@.len() as int) =~= slashed(v@));
        assert(Seq::<char>::empty() + slashed(v@) =~= slashed(v@));
        assert("//?/"@ + slashed(v@) =~= prefix + slashed(v@) || Seq::<char>::empty() + slashed(
            v@,
        ) =~= prefix + slashed(v@));
    }
    s
}

/// The stream settings the cat command asks the renderer for, as pairs of
/// a setting name and its values.
pub open spec fn cat_settings_spec(args: Cat) -> Seq<(Seq<char>, Seq<Seq<char>>)> {
    let base = seq![
        (
            "streamfilename"@,
            seq![
                match args.output {
                    Option::Some(o) => o@,
                    Option::None => "stdout"@,
                },
            ],
        ),
    ];
    let with_format = if args.binary {
        base.push(("streamformat"@, seq!["binarynsi"@]))
    } else {
        base
    };
    let with_compression = if args.gzip {
        with_format.push(("streamcompression"@, seq!["gzip"@]))
    } else {
        with_format
    };
    let procedurals = if args.expand {
        seq!["apistream"@, "dynamiclibrary"@, "RiProcDynamicLoad"@]
    } else {
        seq!["apistream"@]
    };
    with_compression.push(("executeprocedurals"@, procedurals))
}

/// The views of a list of named settings.
pub open spec fn settings_views(v: Seq<(String, Vec<String>)>) -> Seq<(Seq<char>, Seq<Seq<char>>)> {
    v.map_values(
        |p: (String, Vec<String>)| (p.0@, p.1@.map_values(|x: String| x@)),
    )
}

/// Derives the stream settings of the cat command from its options: where
/// the stream goes (standard output unless redirected), its format and
/// compression, and which procedurals to expand into it.
pub fn cat_context_settings(args: &Cat) -> (r: Vec<(String, Vec<String>)>)
    ensures
        settings_views(r@) == cat_settings_spec(*args),
{
    let mut r: Vec<(String, Vec<String>)> = Vec::new();
    let path: String = match &args.output {
        Some(o) => o.clone(),
        None => String::from_str("stdout"),
    };
    let mut path_values: Vec<String> = Vec::new();
    path_values.push(path);
    r.push((String::from_str("streamfilename"), path_values));
    if args.binary {
        let mut values: Vec<String> = Vec::new();
        values.push(String::from_str("binarynsi"));
        r.push((String::from_str("streamformat"), values));
    }
    if args.gzip {
        let mut values: Vec<String> = Vec::new();
        values.push(String::from_str("gzip"));
        r.push((String::from_str("streamcompression"), values));
    }
    let mut procedurals: Vec<String> = Vec::new();
    procedurals.push(String::from_str("apistream"));
    if args.expand {
        procedurals.push(String::from_str("dynamiclibrary"));
        procedurals.push(String::from_str("RiProcDynamicLoad"));
    }
    r.push((String::from_str("executeprocedurals"), procedurals));
    proof {
        assert(settings_views(r@) =~~= cat_settings_spec(*args));
    }
    r
}

} // verus!
