//! The stable sort of a list of files by path.
use crate::file_entry::{models, DiffFileEntry, FileModel};
use crate::order::{
    lemma_path_lt_asymmetric, lemma_path_lt_irreflexive, lemma_path_lt_total,
    lemma_path_lt_transitive, path_lt, Place,
};
use vstd::prelude::*;

verus! {

/// `sorted` with `file` put in front of the first file that does not come before it.
pub open spec fn insert_by_path(file: FileModel, sorted: Seq<FileModel>) -> Seq<FileModel>
    decreases sorted.len(),
{
    if sorted.len() == 0 {
        seq![file]
    } else if path_lt(sorted[0].repo_path, file.repo_path) {
        seq![sorted[0]] + insert_by_path(file, sorted.drop_first())
    } else {
        seq![file] + sorted
    }
}

/// The files in the order of their paths; files of the same path stay in the order given.
pub open spec fn sorted_by_path(files: Seq<FileModel>) -> Seq<FileModel>
    decreases files.len(),
{
    if files.len() == 0 {
        Seq::<FileModel>::empty()
    } else {
        insert_by_path(files[0], sorted_by_path(files.drop_first()))
    }
}

/// How often the file is listed.
pub open spec fn occurrences(files: Seq<FileModel>, file: FileModel) -> nat
    decreases files.len(),
{
    if files.len() == 0 {
        0
    } else {
        let before = occurrences(files.drop_last(), file);
        if files.last() == file {
            before + 1
        } else {
            before
        }
    }
}

/// The files of two sorted lists in one, those of `a` before those of `b` where paths agree.
spec fn merged(a: Seq<FileModel>, b: Seq<FileModel>) -> Seq<FileModel>
    decreases a.len() + b.len(),
{
    if a.len() == 0 {
        b
    } else if b.len() == 0 {
        a
    } else if path_lt(b[0].repo_path, a[0].repo_path) {
        seq![b[0]] + merged(a, b.drop_first())
    } else {
        seq![a[0]] + merged(a.drop_first(), b)
    }
}

proof fn lemma_cons_parts<A>(x: A, s: Seq<A>)
    ensures
        (seq![x] + s).len() == s.len() + 1,
        (seq![x] + s)[0] == x,
        (seq![x] + s).drop_first() == s,
{
    assert((seq![x] + s).drop_first() =~= s);
}

proof fn lemma_merged_insert(file: FileModel, a: Seq<FileModel>, b: Seq<FileModel>)
    ensures
        merged(insert_by_path(file, a), b) == insert_by_path(file, merged(a, b)),
    decreases a.len() + b.len(),
{
    lemma_cons_parts(file, a);
    if a.len() == 0 {
        if b.len() > 0 {
            let whole = seq![file];
            assert(whole.drop_first() =~= Seq::<FileModel>::empty());
            assert(merged(Seq::<FileModel>::empty(), b) == b);
            if path_lt(b[0].repo_path, file.repo_path) {
                lemma_merged_insert(file, a, b.drop_first());
                assert(merged(a, b.drop_first()) == b.drop_first());
            }
        }
    } else {
        lemma_cons_parts(a[0], insert_by_path(file, a.drop_first()));
        if b.len() > 0 {
            lemma_cons_parts(b[0], merged(a, b.drop_first()));
            lemma_cons_parts(a[0], merged(a.drop_first(), b));
            if path_lt(a[0].repo_path, file.repo_path) {
                if path_lt(b[0].repo_path, a[0].repo_path) {
                    lemma_path_lt_transitive(b[0].repo_path, a[0].repo_path, file.repo_path);
                    lemma_merged_insert(file, a, b.drop_first());
                } else {
                    lemma_merged_insert(file, a.drop_first(), b);
                }
            } else if path_lt(b[0].repo_path, file.repo_path) {
                lemma_merged_insert(file, a, b.drop_first());
                lemma_path_lt_total(a[0].repo_path, file.repo_path);
                if a[0].repo_path != file.repo_path {
                    lemma_path_lt_transitive(b[0].repo_path, file.repo_path, a[0].repo_path);
                }
            }
        }
    }
}

proof fn lemma_sorted_of_both(a: Seq<FileModel>, b: Seq<FileModel>)
    ensures
        sorted_by_path(a + b) == merged(sorted_by_path(a), sorted_by_path(b)),
    decreases a.len(),
{
    if a.len() == 0 {
        assert(a + b =~= b);
    } else {
        assert((a + b).drop_first() =~= a.drop_first() + b);
        lemma_sorted_of_both(a.drop_first(), b);
        lemma_merged_insert(a[0], sorted_by_path(a.drop_first()), sorted_by_path(b));
    }
}

/// The views of a list of borrowed files.
pub open spec fn borrowed_models(files: Seq<&DiffFileEntry>) -> Seq<FileModel> {
    files.map_values(|file: &DiffFileEntry| file@)
}

fn merge<'a>(a: Vec<&'a DiffFileEntry>, b: Vec<&'a DiffFileEntry>) -> (out: Vec<&'a DiffFileEntry>)
    ensures
        borrowed_models(out@) == merged(borrowed_models(a@), borrowed_models(b@)),
{
    let ghost x = borrowed_models(a@);
    let ghost y = borrowed_models(b@);
    let mut out: Vec<&DiffFileEntry> = Vec::new();
    let mut i: usize = 0;
    let mut j: usize = 0;
    assert(x.skip(0) =~= x && y.skip(0) =~= y);
    assert(borrowed_models(out@) + merged(x, y) =~= merged(x, y));
    while i < a.len() || j < b.len()
        invariant
            x == borrowed_models(a@),
            y == borrowed_models(b@),
            i <= a@.len(),
            j <= b@.len(),
            borrowed_models(out@) + merged(x.skip(i as int), y.skip(j as int)) == merged(x, y),
        decreases a@.len() - i + b@.len() - j,
    {
        let ghost rest_a = x.skip(i as int);
        let ghost rest_b = y.skip(j as int);
        let take_b = if i == a.len() {
            true
        } else if j == b.len() {
            false
        } else {
            b[j].repo_path.place(&a[i].repo_path) == Place::Before
        };
        let ghost old_out = out@;
        if take_b {
            out.push(b[j]);
            proof {
                assert(rest_b.drop_first() =~= y.skip(j + 1));
                assert(rest_b[0] == b@[j as int]@);
                assert(merged(rest_a, rest_b) =~= seq![rest_b[0]] + merged(
                    rest_a,
                    rest_b.drop_first(),
                ));
                assert(borrowed_models(out@) =~= borrowed_models(old_out).push(rest_b[0]));
                assert(borrowed_models(out@) + merged(rest_a, rest_b.drop_first())
                    =~= borrowed_models(old_out) + merged(rest_a, rest_b));
            }
            j += 1;
        } else {
            out.push(a[i]);
            proof {
                assert(rest_a.drop_first() =~= x.skip(i + 1));
                assert(rest_a[0] == a@[i as int]@);
                assert(merged(rest_a, rest_b) =~= seq![rest_a[0]] + merged(
                    rest_a.drop_first(),
                    rest_b,
                ));
                assert(borrowed_models(out@) =~= borrowed_models(old_out).push(rest_a[0]));
                assert(borrowed_models(out@) + merged(rest_a.drop_first(), rest_b)
                    =~= borrowed_models(old_out) + merged(rest_a, rest_b));
            }
            i += 1;
        }
    }
    assert(merged(x.skip(i as int), y.skip(j as int)) =~= Seq::<FileModel>::empty());
    assert(borrowed_models(out@) + Seq::<FileModel>::empty() =~= borrowed_models(out@));
    out
}

fn sort_range<'a>(files: &'a Vec<DiffFileEntry>, from: usize, to: usize) -> (sorted: Vec<
    &'a DiffFileEntry,
>)
    requires
        from <= to <= files@.len(),
    ensures
        borrowed_models(sorted@) == sorted_by_path(
            models(files@).subrange(from as int, to as int),
        ),
    decreases to - from,
{
    let ghost range = models(files@).subrange(from as int, to as int);
    let mut sorted: Vec<&DiffFileEntry> = Vec::new();
    if to - from == 0 {
        assert(borrowed_models(sorted@) =~= sorted_by_path(range));
        sorted
    } else if to - from == 1 {
        sorted.push(&files[from]);
        proof {
            assert(range.drop_first() =~= Seq::<FileModel>::empty());
            assert(sorted_by_path(range.drop_first()) == Seq::<FileModel>::empty());
            assert(borrowed_models(sorted@) =~= seq![range[0]]);
        }
        sorted
    } else {
        let middle: usize = from + (to - from) / 2;
        let a = sort_range(files, from, middle);
        let b = sort_range(files, middle, to);
        proof {
            let front = models(files@).subrange(from as int, middle as int);
            let back = models(files@).subrange(middle as int, to as int);
            assert(range =~= front + back);
            lemma_sorted_of_both(front, back);
        }
        merge(a, b)
    }
}

/// The files in the order of their paths; files of the same path stay in the order given.
pub fn sort_by_path<'a>(files: &'a Vec<DiffFileEntry>) -> (sorted: Vec<&'a DiffFileEntry>)
    ensures
        borrowed_models(sorted@) == sorted_by_path(models(files@)),
        sorted@.len() == files@.len(),
        forall|i: int, j: int|
            0 <= i < j < sorted@.len() ==> !path_lt(
                (#[trigger] sorted@[j]).repo_path@,
                (#[trigger] sorted@[i]).repo_path@,
            ),
{
    let sorted = sort_range(files, 0, files.len());
    assert(models(files@).subrange(0, files@.len() as int) =~= models(files@));
    proof {
        let all = borrowed_models(sorted@);
        law_sort_orders(models(files@));
        assert forall|file: FileModel| #[trigger] occurrences(all, file) == occurrences(
            models(files@),
            file,
        ) by {
            law_sort_keeps_files(models(files@), file);
        }
        lemma_same_occurrences_same_length(all, models(files@));
        assert forall|i: int, j: int| 0 <= i < j < sorted@.len() implies !path_lt(
            (#[trigger] sorted@[j]).repo_path@,
            (#[trigger] sorted@[i]).repo_path@,
        ) by {
            assert(all[i] == sorted@[i]@ && all[j] == sorted@[j]@);
        }
    }
    sorted
}

/// Whether no file comes before one that is listed ahead of it.
pub open spec fn in_path_order(files: Seq<FileModel>) -> bool {
    forall|i: int, j: int|
        0 <= i < j < files.len() ==> !path_lt(
            (#[trigger] files[j]).repo_path,
            (#[trigger] files[i]).repo_path,
        )
}

proof fn lemma_occurrences_cons(file: FileModel, files: Seq<FileModel>, which: FileModel)
    ensures
        occurrences(seq![file] + files, which) == occurrences(files, which) + if file == which {
            1int
        } else {
            0
        },
    decreases files.len(),
{
    let all = seq![file] + files;
    if files.len() == 0 {
        assert(all.drop_last() =~= Seq::<FileModel>::empty());
        assert(occurrences(all.drop_last(), which) == 0);
    } else {
        assert(all.drop_last() =~= seq![file] + files.drop_last());
        lemma_occurrences_cons(file, files.drop_last(), which);
    }
}

proof fn lemma_insert_occurrences(file: FileModel, sorted: Seq<FileModel>, which: FileModel)
    ensures
        occurrences(insert_by_path(file, sorted), which) == occurrences(sorted, which)
            + if file == which {
            1int
        } else {
            0
        },
    decreases sorted.len(),
{
    if sorted.len() == 0 {
        lemma_occurrences_cons(file, sorted, which);
        assert(seq![file] + sorted =~= seq![file]);
    } else {
        let rest = sorted.drop_first();
        assert(sorted =~= seq![sorted[0]] + rest);
        lemma_occurrences_cons(sorted[0], rest, which);
        lemma_insert_occurrences(file, rest, which);
        lemma_occurrences_cons(sorted[0], insert_by_path(file, rest), which);
        lemma_occurrences_cons(file, sorted, which);
    }
}

/// Sorting adds no file and loses none.
pub proof fn law_sort_keeps_files(files: Seq<FileModel>, which: FileModel)
    ensures
        occurrences(sorted_by_path(files), which) == occurrences(files, which),
    decreases files.len(),
{
    if files.len() > 0 {
        let rest = files.drop_first();
        law_sort_keeps_files(rest, which);
        lemma_insert_occurrences(files[0], sorted_by_path(rest), which);
        lemma_occurrences_cons(files[0], rest, which);
        assert(files =~= seq![files[0]] + rest);
    }
}

proof fn lemma_insert_in_order(file: FileModel, sorted: Seq<FileModel>)
    requires
        in_path_order(sorted),
    ensures
        in_path_order(insert_by_path(file, sorted)),
        forall|bound: Seq<Seq<char>>|
            !path_lt(file.repo_path, bound) && (forall|i: int|
                0 <= i < sorted.len() ==> !path_lt((#[trigger] sorted[i]).repo_path, bound))
                ==> #[trigger] none_before(insert_by_path(file, sorted), bound),
    decreases sorted.len(),
{
    let after = insert_by_path(file, sorted);
    if sorted.len() > 0 {
        let rest = sorted.drop_first();
        if path_lt(sorted[0].repo_path, file.repo_path) {
            let inner = insert_by_path(file, rest);
            assert forall|i: int, j: int| 0 <= i < j < rest.len() implies !path_lt(
                (#[trigger] rest[j]).repo_path,
                (#[trigger] rest[i]).repo_path,
            ) by {
                assert(rest[i] == sorted[i + 1] && rest[j] == sorted[j + 1]);
            }
            lemma_insert_in_order(file, rest);
            lemma_path_lt_asymmetric(sorted[0].repo_path, file.repo_path);
            assert forall|i: int| 0 <= i < rest.len() implies !path_lt(
                (#[trigger] rest[i]).repo_path,
                sorted[0].repo_path,
            ) by {
                assert(rest[i] == sorted[i + 1]);
            }
            assert(none_before(inner, sorted[0].repo_path));
            assert forall|i: int, j: int| 0 <= i < j < after.len() implies !path_lt(
                (#[trigger] after[j]).repo_path,
                (#[trigger] after[i]).repo_path,
            ) by {
                assert(after[j] == inner[j - 1]);
                if i > 0 {
                    assert(after[i] == inner[i - 1]);
                }
            }
            assert forall|bound: Seq<Seq<char>>|
                !path_lt(file.repo_path, bound) && (forall|i: int|
                    0 <= i < sorted.len() ==> !path_lt(
                        (#[trigger] sorted[i]).repo_path,
                        bound,
                    )) implies #[trigger] none_before(after, bound) by {
                assert forall|i: int| 0 <= i < rest.len() implies !path_lt(
                    (#[trigger] rest[i]).repo_path,
                    bound,
                ) by {
                    assert(rest[i] == sorted[i + 1]);
                }
                assert(none_before(inner, bound));
                assert forall|i: int| 0 <= i < after.len() implies !path_lt(
                    (#[trigger] after[i]).repo_path,
                    bound,
                ) by {
                    if i > 0 {
                        assert(after[i] == inner[i - 1]);
                    } else {
                        assert(after[i] == sorted[0]);
                    }
                }
            }
        } else {
            assert forall|i: int, j: int| 0 <= i < j < after.len() implies !path_lt(
                (#[trigger] after[j]).repo_path,
                (#[trigger] after[i]).repo_path,
            ) by {
                assert(after[j] == sorted[j - 1]);
                if i > 0 {
                    assert(after[i] == sorted[i - 1]);
                } else if path_lt(sorted[j - 1].repo_path, file.repo_path) {
                    lemma_path_lt_total(sorted[j - 1].repo_path, sorted[0].repo_path);
                    if j > 1 {
                        assert(!path_lt(sorted[j - 1].repo_path, sorted[0].repo_path));
                    }
                    if sorted[0].repo_path != sorted[j - 1].repo_path {
                        lemma_path_lt_transitive(
                            sorted[0].repo_path,
                            sorted[j - 1].repo_path,
                            file.repo_path,
                        );
                    }
                }
            }
            assert forall|bound: Seq<Seq<char>>|
                !path_lt(file.repo_path, bound) && (forall|i: int|
                    0 <= i < sorted.len() ==> !path_lt(
                        (#[trigger] sorted[i]).repo_path,
                        bound,
                    )) implies #[trigger] none_before(after, bound) by {
                assert forall|i: int| 0 <= i < after.len() implies !path_lt(
                    (#[trigger] after[i]).repo_path,
                    bound,
                ) by {
                    if i > 0 {
                        assert(after[i] == sorted[i - 1]);
                    }
                }
            }
        }
    }
}

/// Whether no file of the list comes before `bound`.
spec fn none_before(files: Seq<FileModel>, bound: Seq<Seq<char>>) -> bool {
    forall|i: int| 0 <= i < files.len() ==> !path_lt((#[trigger] files[i]).repo_path, bound)
}

/// Sorted files are in the order of their paths.
pub proof fn law_sort_orders(files: Seq<FileModel>)
    ensures
        in_path_order(sorted_by_path(files)),
        forall|i: int, j: int|
            0 <= i < j < sorted_by_path(files).len() ==> !path_lt(
                (#[trigger] sorted_by_path(files)[j]).repo_path,
                (#[trigger] sorted_by_path(files)[i]).repo_path,
            ),
    decreases files.len(),
{
    if files.len() > 0 {
        law_sort_orders(files.drop_first());
        lemma_insert_in_order(files[0], sorted_by_path(files.drop_first()));
    }
}

proof fn lemma_filter_cons(
    file: FileModel,
    files: Seq<FileModel>,
    wanted: spec_fn(FileModel) -> bool,
)
    ensures
        (seq![file] + files).filter(wanted) == if wanted(file) {
            seq![file] + files.filter(wanted)
        } else {
            files.filter(wanted)
        },
    decreases files.len(),
{
    reveal(Seq::filter);
    let all = seq![file] + files;
    if files.len() == 0 {
        assert(all.drop_last() =~= Seq::<FileModel>::empty());
        assert(all.drop_last().filter(wanted) =~= Seq::<FileModel>::empty());
        assert(files.filter(wanted) =~= Seq::<FileModel>::empty());
        assert(all.filter(wanted) =~= if wanted(file) {
            seq![file] + files.filter(wanted)
        } else {
            files.filter(wanted)
        });
    } else {
        assert(all.drop_last() =~= seq![file] + files.drop_last());
        lemma_filter_cons(file, files.drop_last(), wanted);
        assert(all.filter(wanted) =~= if wanted(file) {
            seq![file] + files.filter(wanted)
        } else {
            files.filter(wanted)
        });
    }
}

proof fn lemma_filter_insert(
    file: FileModel,
    sorted: Seq<FileModel>,
    wanted: spec_fn(FileModel) -> bool,
)
    requires
        in_path_order(sorted),
    ensures
        insert_by_path(file, sorted).filter(wanted) == if wanted(file) {
            insert_by_path(file, sorted.filter(wanted))
        } else {
            sorted.filter(wanted)
        },
    decreases sorted.len(),
{
    if sorted.len() == 0 {
        lemma_filter_cons(file, sorted, wanted);
        assert(seq![file] + sorted =~= seq![file]);
        reveal(Seq::filter);
        assert(sorted.filter(wanted) =~= Seq::<FileModel>::empty());
        assert(seq![file] + sorted.filter(wanted) =~= seq![file]);
    } else {
        let first = sorted[0];
        let rest = sorted.drop_first();
        assert(sorted =~= seq![first] + rest);
        lemma_filter_cons(first, rest, wanted);
        lemma_cons_parts(first, rest.filter(wanted));
        if path_lt(first.repo_path, file.repo_path) {
            assert forall|i: int, j: int| 0 <= i < j < rest.len() implies !path_lt(
                (#[trigger] rest[j]).repo_path,
                (#[trigger] rest[i]).repo_path,
            ) by {
                assert(rest[i] == sorted[i + 1] && rest[j] == sorted[j + 1]);
            }
            lemma_filter_insert(file, rest, wanted);
            lemma_filter_cons(first, insert_by_path(file, rest), wanted);
        } else {
            lemma_filter_cons(file, sorted, wanted);
            let kept = sorted.filter(wanted);
            if kept.len() > 0 {
                assert(sorted.contains(kept[0])) by {
                    lemma_filter_comes_from(sorted, wanted, 0);
                }
                let k = choose|k: int| 0 <= k < sorted.len() && sorted[k] == kept[0];
                if path_lt(kept[0].repo_path, file.repo_path) {
                    lemma_path_lt_total(first.repo_path, kept[0].repo_path);
                    if k > 0 {
                        assert(!path_lt(sorted[k].repo_path, sorted[0].repo_path));
                    }
                    if first.repo_path != kept[0].repo_path {
                        lemma_path_lt_transitive(
                            first.repo_path,
                            kept[0].repo_path,
                            file.repo_path,
                        );
                    }
                }
            } else {
                assert(seq![file] + kept =~= seq![file]);
            }
        }
    }
}

proof fn lemma_filter_comes_from(
    files: Seq<FileModel>,
    wanted: spec_fn(FileModel) -> bool,
    i: int,
)
    requires
        0 <= i < files.filter(wanted).len(),
    ensures
        files.contains(files.filter(wanted)[i]),
        wanted(files.filter(wanted)[i]),
    decreases files.len(),
{
    reveal(Seq::filter);
    let init = files.drop_last();
    if i < init.filter(wanted).len() {
        lemma_filter_comes_from(init, wanted, i);
        let k = choose|k: int| 0 <= k < init.len() && init[k] == init.filter(wanted)[i];
        assert(files[k] == files.filter(wanted)[i]);
    } else {
        assert(files.contains(files.last()));
    }
}

/// Sorting and picking out some of the files can change places. The files of one directory are
/// therefore shown in the same order whatever else is listed.
pub proof fn law_sort_of_part(files: Seq<FileModel>, wanted: spec_fn(FileModel) -> bool)
    ensures
        sorted_by_path(files).filter(wanted) == sorted_by_path(files.filter(wanted)),
    decreases files.len(),
{
    reveal(Seq::filter);
    if files.len() > 0 {
        let rest = files.drop_first();
        law_sort_of_part(rest, wanted);
        law_sort_orders(rest);
        lemma_filter_insert(files[0], sorted_by_path(rest), wanted);
        lemma_filter_cons(files[0], rest, wanted);
        assert(files =~= seq![files[0]] + rest);
        lemma_cons_parts(files[0], rest.filter(wanted));
    } else {
        assert(files.filter(wanted) =~= Seq::<FileModel>::empty());
        assert(sorted_by_path(files).filter(wanted) =~= Seq::<FileModel>::empty());
    }
}

proof fn lemma_sort_of_equals(files: Seq<FileModel>, path: Seq<Seq<char>>)
    requires
        forall|i: int| 0 <= i < files.len() ==> (#[trigger] files[i]).repo_path == path,
    ensures
        sorted_by_path(files) == files,
    decreases files.len(),
{
    if files.len() > 0 {
        let rest = files.drop_first();
        assert forall|i: int| 0 <= i < rest.len() implies (#[trigger] rest[i]).repo_path
            == path by {
            assert(rest[i] == files[i + 1]);
        }
        lemma_sort_of_equals(rest, path);
        lemma_path_lt_irreflexive(path);
        assert(files =~= seq![files[0]] + rest);
        if rest.len() == 0 {
            assert(files =~= seq![files[0]]);
        }
    } else {
        assert(sorted_by_path(files) =~= files);
    }
}

/// The sort is stable: the files of one path stay in the order in which they were listed.
pub proof fn law_sort_is_stable(files: Seq<FileModel>, path: Seq<Seq<char>>)
    ensures
        sorted_by_path(files).filter(|file: FileModel| file.repo_path == path) == files.filter(
            |file: FileModel| file.repo_path == path,
        ),
{
    let wanted = |file: FileModel| file.repo_path == path;
    let kept = files.filter(wanted);
    law_sort_of_part(files, wanted);
    assert forall|i: int| 0 <= i < kept.len() implies (#[trigger] kept[i]).repo_path == path by {
        lemma_filter_comes_from(files, wanted, i);
    }
    lemma_sort_of_equals(kept, path);
}

/// Whether a path is listed for one file only.
pub open spec fn one_file_per_path(files: Seq<FileModel>) -> bool {
    forall|a: FileModel, b: FileModel|
        #[trigger] occurrences(files, a) > 0 && #[trigger] occurrences(files, b) > 0
            && a.repo_path == b.repo_path ==> a == b
}

/// A file is listed exactly if it stands somewhere in the list.
pub proof fn lemma_occurrences_means_contained(files: Seq<FileModel>, file: FileModel)
    ensures
        occurrences(files, file) > 0 <==> files.contains(file),
    decreases files.len(),
{
    if files.len() > 0 {
        let init = files.drop_last();
        lemma_occurrences_means_contained(init, file);
        if files.last() == file {
            assert(files[files.len() - 1] == file);
        } else {
            if init.contains(file) {
                let i = choose|i: int| 0 <= i < init.len() && init[i] == file;
                assert(files[i] == file);
            }
            if files.contains(file) {
                let i = choose|i: int| 0 <= i < files.len() && files[i] == file;
                assert(init[i] == file);
            }
        }
    }
}

proof fn lemma_ordered_lists_agree(a: Seq<FileModel>, b: Seq<FileModel>)
    requires
        in_path_order(a),
        in_path_order(b),
        one_file_per_path(a),
        forall|file: FileModel| #[trigger] occurrences(a, file) == occurrences(b, file),
    ensures
        a == b,
    decreases a.len(),
{
    if a.len() == 0 {
        if b.len() > 0 {
            lemma_occurrences_means_contained(b, b[0]);
            assert(b.contains(b[0]));
            assert(occurrences(a, b[0]) == occurrences(b, b[0]));
        }
        assert(a =~= b);
    } else {
        let first = a[0];
        lemma_occurrences_means_contained(a, first);
        assert(a.contains(first));
        assert(occurrences(a, first) == occurrences(b, first));
        lemma_occurrences_means_contained(b, first);
        let k = choose|k: int| 0 <= k < b.len() && b[k] == first;
        lemma_occurrences_means_contained(b, b[0]);
        assert(b.contains(b[0]));
        assert(occurrences(a, b[0]) == occurrences(b, b[0]));
        lemma_occurrences_means_contained(a, b[0]);
        let m = choose|m: int| 0 <= m < a.len() && a[m] == b[0];
        lemma_path_lt_total(first.repo_path, b[0].repo_path);
        if k > 0 {
            assert(!path_lt(b[k].repo_path, b[0].repo_path));
        }
        if m > 0 {
            assert(!path_lt(a[m].repo_path, a[0].repo_path));
        }
        lemma_path_lt_irreflexive(first.repo_path);
        assert(first == b[0]);
        let rest_a = a.drop_first();
        let rest_b = b.drop_first();
        assert(a =~= seq![first] + rest_a);
        assert(b =~= seq![first] + rest_b);
        assert forall|file: FileModel| #[trigger] occurrences(rest_a, file) == occurrences(
            rest_b,
            file,
        ) by {
            lemma_occurrences_cons(first, rest_a, file);
            lemma_occurrences_cons(first, rest_b, file);
            assert(occurrences(a, file) == occurrences(b, file));
        }
        assert forall|x: FileModel, y: FileModel|
            #[trigger] occurrences(rest_a, x) > 0 && #[trigger] occurrences(rest_a, y) > 0
                && x.repo_path == y.repo_path implies x == y by {
            lemma_occurrences_cons(first, rest_a, x);
            lemma_occurrences_cons(first, rest_a, y);
            assert(occurrences(a, x) > 0 && occurrences(a, y) > 0);
        }
        assert forall|i: int, j: int| 0 <= i < j < rest_a.len() implies !path_lt(
            (#[trigger] rest_a[j]).repo_path,
            (#[trigger] rest_a[i]).repo_path,
        ) by {
            assert(rest_a[i] == a[i + 1] && rest_a[j] == a[j + 1]);
        }
        assert forall|i: int, j: int| 0 <= i < j < rest_b.len() implies !path_lt(
            (#[trigger] rest_b[j]).repo_path,
            (#[trigger] rest_b[i]).repo_path,
        ) by {
            assert(rest_b[i] == b[i + 1] && rest_b[j] == b[j + 1]);
        }
        lemma_ordered_lists_agree(rest_a, rest_b);
    }
}

/// Where no path is listed for two files, the order in which the files were listed does not
/// matter.
pub proof fn law_sort_ignores_listing(a: Seq<FileModel>, b: Seq<FileModel>)
    requires
        one_file_per_path(a),
        forall|file: FileModel| #[trigger] occurrences(a, file) == occurrences(b, file),
    ensures
        sorted_by_path(a) == sorted_by_path(b),
{
    law_sort_orders(a);
    law_sort_orders(b);
    let x = sorted_by_path(a);
    let y = sorted_by_path(b);
    assert forall|file: FileModel| #[trigger] occurrences(x, file) == occurrences(y, file) by {
        law_sort_keeps_files(a, file);
        law_sort_keeps_files(b, file);
        assert(occurrences(a, file) == occurrences(b, file));
    }
    assert forall|f: FileModel, g: FileModel|
        #[trigger] occurrences(x, f) > 0 && #[trigger] occurrences(x, g) > 0 && f.repo_path
            == g.repo_path implies f == g by {
        law_sort_keeps_files(a, f);
        law_sort_keeps_files(a, g);
        assert(occurrences(a, f) > 0 && occurrences(a, g) > 0);
    }
    lemma_ordered_lists_agree(x, y);
}

proof fn lemma_occurrences_remove(files: Seq<FileModel>, k: int, which: FileModel)
    requires
        0 <= k < files.len(),
    ensures
        occurrences(files, which) == occurrences(files.remove(k), which) + if files[k] == which {
            1int
        } else {
            0
        },
    decreases files.len(),
{
    let init = files.drop_last();
    if k == files.len() - 1 {
        assert(files.remove(k) =~= init);
    } else {
        lemma_occurrences_remove(init, k, which);
        assert(files.remove(k).drop_last() =~= init.remove(k));
    }
}

/// Two lists with the same files, each as often, are of the same length.
pub proof fn lemma_same_occurrences_same_length(a: Seq<FileModel>, b: Seq<FileModel>)
    requires
        forall|file: FileModel| #[trigger] occurrences(a, file) == occurrences(b, file),
    ensures
        a.len() == b.len(),
    decreases a.len(),
{
    if a.len() == 0 {
        if b.len() > 0 {
            lemma_occurrences_means_contained(b, b[0]);
            assert(b.contains(b[0]));
            assert(occurrences(a, b[0]) == occurrences(b, b[0]));
        }
    } else {
        let last = a.last();
        assert(occurrences(a, last) == occurrences(b, last));
        lemma_occurrences_means_contained(b, last);
        let k = choose|k: int| 0 <= k < b.len() && b[k] == last;
        assert forall|file: FileModel| #[trigger] occurrences(a.drop_last(), file) == occurrences(
            b.remove(k),
            file,
        ) by {
            assert(occurrences(a, file) == occurrences(b, file));
            lemma_occurrences_remove(b, k, file);
        }
        lemma_same_occurrences_same_length(a.drop_last(), b.remove(k));
    }
}

/// Borrowed files are seen one by one, as the files that they are.
pub proof fn law_borrowed_files_seen_as_they_are(files: Seq<&DiffFileEntry>, i: int)
    requires
        0 <= i < files.len(),
    ensures
        borrowed_models(files).len() == files.len(),
        borrowed_models(files)[i] == files[i]@,
{
}

} // verus!
