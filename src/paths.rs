use vstd::prelude::*;

verus! {

/// `dir` followed by `name`, as pushing a component onto a path gives it: an
/// absolute `name` replaces `dir`, and a separator is added where `dir` is
/// not empty and does not already end in one.
pub open spec fn join_path(dir: Seq<char>, name: Seq<char>) -> Seq<char> {
    if name.len() > 0 && name[0] == '/' {
        name
    } else if dir.len() == 0 || dir.last() == '/' {
        dir + name
    } else {
        dir + seq!['/'] + name
    }
}

/// The final component of a path scanned from the back: `rest` is what is
/// left to scan and `seg` the component after it. Empty and `.` components
/// are skipped; a final `..` has no file name.
pub open spec fn name_scan(rest: Seq<char>, seg: Seq<char>) -> Option<Seq<char>>
    decreases rest.len(),
{
    if rest.len() > 0 && rest.last() != '/' {
        name_scan(rest.drop_last(), seq![rest.last()] + seg)
    } else if seg.len() == 0 || seg == seq!['.'] {
        if rest.len() == 0 {
            None
        } else {
            name_scan(rest.drop_last(), Seq::empty())
        }
    } else if seg == seq!['.', '.'] {
        None
    } else {
        Some(seg)
    }
}

/// The file name of a path: its final component, if that is a normal one.
pub open spec fn file_name_of(path: Seq<char>) -> Option<Seq<char>> {
    name_scan(path, Seq::empty())
}

fn join(dir: &String, name: &String) -> (r: String)
    ensures
        r@ == join_path(dir@, name@),
{
    let dir_s = dir.as_str();
    let name_s = name.as_str();
    let nl = name_s.unicode_len();
    if nl > 0 && name_s.get_char(0) == '/' {
        return String::from_str(name_s);
    }
    let dl = dir_s.unicode_len();
    let mut out = String::from_str(dir_s);
    if dl > 0 && dir_s.get_char(dl - 1) != '/' {
        proof {
            reveal_strlit("/");
        }
        out.append("/");
    }
    out.append(name_s);
    out
}

/// The location of track file `file_name` under the assets directory `assets_dir`.
pub fn file_name_to_path_buf(assets_dir: &String, file_name: &String) -> (r: String)
    ensures
        r@ == join_path(assets_dir@, file_name@),
{
    join(assets_dir, file_name)
}

/// The location of the persisted correspondence map under `output_dir`.
pub fn get_final_json_path(output_dir: &String) -> (r: String)
    ensures
        r@ == join_path(output_dir@, "final.json"@),
{
    let name = String::from_str("final.json");
    join(output_dir, &name)
}

/// The file name of `path`: its final component, where that is neither
/// absent (a root or an empty path) nor `..`.
pub fn read_file_name(path: &String) -> (r: Option<String>)
    ensures
        match r {
            Some(s) => file_name_of(path@) == Some(s@),
            None => file_name_of(path@) is None,
        },
{
    let s = path.as_str();
    let n = s.unicode_len();
    let mut i: usize = n;
    let mut j: usize = n;
    assert(s@.take(n as int) == s@);
    while i > 0
        invariant
            n == s@.len(),
            s@ == path@,
            i <= j <= n,
            file_name_of(s@) == name_scan(s@.take(i as int), s@.subrange(i as int, j as int)),
        decreases i,
    {
        let c = s.get_char(i - 1);
        let ghost rest = s@.take(i as int);
        assert(rest.drop_last() == s@.take(i - 1));
        assert(rest.last() == c);
        if c == '/' {
            let len = j - i;
            if len == 0 || (len == 1 && s.get_char(i) == '.') {
                proof {
                    if len == 1 {
                        assert(s@.subrange(i as int, j as int) == seq!['.']);
                    }
                }
                i = i - 1;
                j = i;
                assert(s@.subrange(i as int, j as int) == Seq::<char>::empty());
            } else if len == 2 && s.get_char(i) == '.' && s.get_char(i + 1) == '.' {
                assert(s@.subrange(i as int, j as int) == seq!['.', '.']);
                return None;
            } else {
                proof {
                    if len == 1 {
                        assert(s@.subrange(i as int, j as int) != seq!['.']) by {
                            assert(s@.subrange(i as int, j as int)[0] == s@[i as int]);
                        }
                    }
                    if len == 2 {
                        assert(s@.subrange(i as int, j as int) != seq!['.', '.']) by {
                            assert(s@.subrange(i as int, j as int)[0] == s@[i as int]);
                            assert(s@.subrange(i as int, j as int)[1] == s@[i + 1]);
                        }
                    }
                }
                return Some(String::from_str(s.substring_char(i, j)));
            }
        } else {
            assert(seq![c] + s@.subrange(i as int, j as int) == s@.subrange(i - 1, j as int));
            i = i - 1;
        }
    }
    let len = j - i;
    if len == 0 || (len == 1 && s.get_char(0) == '.') {
        proof {
            if len == 1 {
                assert(s@.subrange(0, j as int) == seq!['.']);
            }
        }
        None
    } else if len == 2 && s.get_char(0) == '.' && s.get_char(1) == '.' {
        assert(s@.subrange(0, j as int) == seq!['.', '.']);
        None
    } else {
        proof {
            if len == 1 {
                assert(s@.subrange(0, j as int) != seq!['.']) by {
                    assert(s@.subrange(0, j as int)[0] == s@[0]);
                }
            }
            if len == 2 {
                assert(s@.subrange(0, j as int) != seq!['.', '.']) by {
                    assert(s@.subrange(0, j as int)[0] == s@[0]);
                    assert(s@.subrange(0, j as int)[1] == s@[1]);
                }
            }
        }
        Some(String::from_str(s.substring_char(0, j)))
    }
}

} // verus!
