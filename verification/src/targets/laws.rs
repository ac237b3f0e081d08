//! Where a file is found, told by what says so.

use vstd::prelude::*;

use crate::paths::{OmarchyPaths, expand_tilde};
use crate::targets::{
    Source, WaybarInstance, all_overrides, cmdline, detection, file_overrides, first_named,
    flag_value, module_overrides, override_text, resolution, resolves,
};
use crate::text::{opt_text, starts_with};
use crate::toml::{Node, child};

verus! {

/// The file that is edited is one of the three that were given, the source
/// says which, and a weaker one is taken only where no stronger one is there.
pub proof fn law_strongest_source_counts(
    over: Option<Seq<char>>,
    detected: Option<Seq<char>>,
    default_path: Seq<char>,
)
    ensures
        ({
            let (path, source) = resolution(over, detected, default_path);
            &&& source == Source::Override <==> over is Some
            &&& source == Source::Default <==> over is None && detected is None
            &&& source == Source::Override ==> over == Some(path)
            &&& source == Source::Detected ==> detected == Some(path)
            &&& source == Source::Default ==> path == default_path
        }),
{
}

/// A running Waybar's config is found where no other one before it names a
/// config, and so is its style.
pub proof fn law_first_waybar_is_asked(instances: Seq<WaybarInstance>, i: int)
    requires
        0 <= i < instances.len(),
    ensures
        instances[i].config is Some && (forall|k: int|
            0 <= k < i ==> (#[trigger] instances[k]).config is None) ==> detection(
            "waybar.config"@,
            instances,
        ) == opt_text(instances[i].config),
        instances[i].style is Some && (forall|k: int|
            0 <= k < i ==> (#[trigger] instances[k]).style is None) ==> detection(
            "waybar.style"@,
            instances,
        ) == opt_text(instances[i].style),
{
    reveal_strlit("waybar.config");
    reveal_strlit("waybar.style");
    assert("waybar.config"@.len() != "waybar.style"@.len());
    lemma_first_named(instances, i);
}

proof fn lemma_first_named(instances: Seq<WaybarInstance>, i: int)
    requires
        0 <= i < instances.len(),
    ensures
        instances[i].config is Some && (forall|k: int|
            0 <= k < i ==> (#[trigger] instances[k]).config is None) ==> first_named(
            instances,
            false,
        ) == opt_text(instances[i].config),
        instances[i].style is Some && (forall|k: int|
            0 <= k < i ==> (#[trigger] instances[k]).style is None) ==> first_named(
            instances,
            true,
        ) == opt_text(instances[i].style),
    decreases instances.len(),
{
    if i > 0 {
        let tail = instances.skip(1);
        assert forall|k: int| 0 <= k < tail.len() implies #[trigger] tail[k] == instances[k + 1] by {}
        assert(instances[0] == instances[0]);
        lemma_first_named(tail, i - 1);
        assert(tail[i - 1] == instances[i]);
    }
}

/// Where no running Waybar names a config, none is detected; so with styles.
pub proof fn law_silent_waybars_say_nothing(instances: Seq<WaybarInstance>)
    ensures
        (forall|k: int| 0 <= k < instances.len() ==> (#[trigger] instances[k]).config is None)
            ==> detection("waybar.config"@, instances) is None,
        (forall|k: int| 0 <= k < instances.len() ==> (#[trigger] instances[k]).style is None)
            ==> detection("waybar.style"@, instances) is None,
    decreases instances.len(),
{
    reveal_strlit("waybar.config");
    reveal_strlit("waybar.style");
    assert("waybar.config"@.len() != "waybar.style"@.len());
    if instances.len() > 0 {
        let tail = instances.skip(1);
        assert forall|k: int| 0 <= k < tail.len() implies #[trigger] tail[k] == instances[k + 1] by {}
        assert(instances[0] == instances[0]);
        law_silent_waybars_say_nothing(tail);
    }
}

/// A path that the user has set is the one that is edited, whatever runs.
pub proof fn law_users_choice_is_edited(
    key: Seq<char>,
    paths: OmarchyPaths,
    config: Node,
    home: Seq<char>,
    instances: Seq<WaybarInstance>,
)
    ensures
        override_text(config, key) matches Some(t) ==> resolves(
            key,
            paths,
            config,
            home,
            instances,
        ) == (expand_tilde(t, home), Source::Override),
        override_text(config, key) is None && detection(key, instances) is None ==> resolves(
            key,
            paths,
            config,
            home,
            instances,
        ).1 == Source::Default,
{
}

/// The config named in front of the other arguments, in any of the spellings
/// of its flag, is found unless they name another one. Nothing else is.
pub proof fn law_config_argument_is_found(
    value: Seq<char>,
    more: Seq<Seq<char>>,
    home: Seq<char>,
    found: (Option<Seq<char>>, Option<Seq<char>>),
)
    ensures
        ({
            let then = cmdline(more, home, (Some(expand_tilde(value, home)), found.1));
            &&& cmdline(seq!["-c"@, value] + more, home, found) == then
            &&& cmdline(seq!["--config"@, value] + more, home, found) == then
            &&& cmdline(seq!["--config="@ + value] + more, home, found) == then
            &&& value.len() > 0 ==> cmdline(seq!["-c="@ + value] + more, home, found) == then
            &&& value.len() > 0 && value[0] != '=' ==> cmdline(
                seq!["-c"@ + value] + more,
                home,
                found,
            ) == then
        }),
{
    reveal_strlit("-c");
    reveal_strlit("--config");
    reveal_strlit("--config=");
    reveal_strlit("-c=");
    assert("--config="@ == "--config"@.push('='));
    assert("-c="@ == "-c"@.push('='));
    lemma_flag("-c"@, "--config"@, value, more);
    lemma_rest_behind("-c"@, value, more);
    lemma_rest_behind("--config"@, value, more);
    lemma_rest_behind("--config="@, value, more);
    lemma_rest_behind("-c="@, value, more);
}

/// The style named in front of the other arguments is found likewise.
pub proof fn law_style_argument_is_found(
    value: Seq<char>,
    more: Seq<Seq<char>>,
    home: Seq<char>,
    found: (Option<Seq<char>>, Option<Seq<char>>),
)
    ensures
        ({
            let then = cmdline(more, home, (found.0, Some(expand_tilde(value, home))));
            &&& cmdline(seq!["-s"@, value] + more, home, found) == then
            &&& cmdline(seq!["--style"@, value] + more, home, found) == then
            &&& cmdline(seq!["--style="@ + value] + more, home, found) == then
            &&& value.len() > 0 ==> cmdline(seq!["-s="@ + value] + more, home, found) == then
            &&& value.len() > 0 && value[0] != '=' ==> cmdline(
                seq!["-s"@ + value] + more,
                home,
                found,
            ) == then
        }),
{
    reveal_strlit("-c");
    reveal_strlit("--config");
    reveal_strlit("-s");
    reveal_strlit("--style");
    reveal_strlit("--style=");
    reveal_strlit("-s=");
    assert("--style="@ == "--style"@.push('='));
    assert("-s="@ == "-s"@.push('='));
    lemma_flag("-s"@, "--style"@, value, more);
    lemma_rest_behind("-s"@, value, more);
    lemma_rest_behind("--style"@, value, more);
    lemma_rest_behind("--style="@, value, more);
    lemma_rest_behind("-s="@, value, more);
    lemma_other_flag("-c"@, "--config"@, seq!["-s"@, value] + more, 1);
    lemma_other_flag("-c"@, "--config"@, seq!["--style"@, value] + more, 2);
    lemma_other_flag("-c"@, "--config"@, seq!["--style="@ + value] + more, 2);
    lemma_other_flag("-c"@, "--config"@, seq!["-s="@ + value] + more, 1);
    lemma_other_flag("-c"@, "--config"@, seq!["-s"@ + value] + more, 1);
}

/// An argument that begins with neither flag in any spelling changes nothing.
pub proof fn law_other_arguments_are_passed_over(
    other: Seq<char>,
    more: Seq<Seq<char>>,
    home: Seq<char>,
    found: (Option<Seq<char>>, Option<Seq<char>>),
)
    requires
        !starts_with(other, "-c"@) && !starts_with(other, "-s"@),
        !starts_with(other, "--config"@) && !starts_with(other, "--style"@),
    ensures
        cmdline(seq![other] + more, home, found) == cmdline(more, home, found),
        cmdline(Seq::empty(), home, found) == found,
{
    let all = seq![other] + more;
    assert(all[0] == other);
    assert(all.skip(1) == more);
    assert("-c"@.take("-c"@.len() as int) == "-c"@);
    assert("-s"@.take("-s"@.len() as int) == "-s"@);
    assert("--config"@.take("--config"@.len() as int) == "--config"@);
    assert("--style"@.take("--style"@.len() as int) == "--style"@);
}

proof fn lemma_rest_behind(flag: Seq<char>, value: Seq<char>, more: Seq<Seq<char>>)
    ensures
        (seq![flag, value] + more).skip(1).skip(1) == more,
        (seq![flag + value] + more).skip(1).skip(0) == more,
{
}

/// The spellings of a flag with a value.
proof fn lemma_flag(short: Seq<char>, long: Seq<char>, value: Seq<char>, more: Seq<Seq<char>>)
    requires
        short.len() == 2,
        short[1] != '-',
        long.len() > 2,
        long[1] == '-',
    ensures
        flag_value(seq![short, value] + more, short, long) == Some((value, 1nat)),
        flag_value(seq![long, value] + more, short, long) == Some((value, 1nat)),
        flag_value(seq![long.push('=') + value] + more, short, long) == Some((value, 0nat)),
        value.len() > 0 ==> flag_value(seq![short.push('=') + value] + more, short, long) == Some(
            (value, 0nat),
        ),
        value.len() > 0 && value[0] != '=' ==> flag_value(
            seq![short + value] + more,
            short,
            long,
        ) == Some((value, 0nat)),
{
    let joined = long.push('=') + value;
    assert(joined.take(long.len() as int) == long);
    assert(joined.skip(long.len() as int + 1) == value);
    let even = short.push('=') + value;
    assert(even.take(2) == short);
    assert(even[1] == short[1]);
    lemma_not_long(even, long);
    assert(even.skip(2).skip(1) == value);
    let close = short + value;
    assert(close.take(2) == short);
    assert(close[1] == short[1]);
    lemma_not_long(close, long);
    assert(close.skip(2) == value);
    lemma_not_long(short, long);
    if value.len() > 0 {
        assert(even != short);
        assert(close != short);
    }
}

proof fn lemma_not_long(a: Seq<char>, long: Seq<char>)
    requires
        a.len() >= 2,
        long.len() > 2,
        a[1] != long[1],
    ensures
        !starts_with(a, long),
        a != long,
{
    if starts_with(a, long) {
        assert(a.take(long.len() as int)[1] == a[1]);
    }
}

/// An argument that differs from both spellings of a flag, within the shorter
/// one or right behind the dashes.
proof fn lemma_other_flag(short: Seq<char>, long: Seq<char>, args: Seq<Seq<char>>, at: int)
    requires
        args.len() > 0,
        short.len() == 2,
        long.len() > 2,
        1 <= at <= 2,
        args[0].len() > at,
        args[0][1] != short[1],
        args[0][at] != long[at],
    ensures
        flag_value(args, short, long) is None,
{
    let a = args[0];
    if starts_with(a, long) {
        assert(a.take(long.len() as int)[at] == a[at]);
    }
    if starts_with(a, short) {
        assert(a.take(2)[1] == a[1]);
    }
}

/// Each path among the targets of the config is listed under its module and
/// file, with its tilde expanded.
pub proof fn law_set_paths_are_listed(
    config: Node,
    home: Seq<char>,
    modules: Seq<(Seq<char>, Node)>,
    files: Seq<(Seq<char>, Node)>,
    i: int,
    j: int,
)
    requires
        child(config, "targets"@) == Some(Node::Table(modules)),
        0 <= i < modules.len(),
        modules[i].1 == Node::Table(files),
        0 <= j < files.len(),
        files[j].1 is Text,
    ensures
        all_overrides(config, home).contains(
            (modules[i].0 + "."@ + files[j].0, expand_tilde(files[j].1->Text_0, home)),
        ),
{
    let one = (modules[i].0 + "."@ + files[j].0, expand_tilde(files[j].1->Text_0, home));
    lemma_file_listed(modules[i].0, files, home, j);
    lemma_module_listed(modules, home, i, one);
}

proof fn lemma_file_listed(
    module: Seq<char>,
    files: Seq<(Seq<char>, Node)>,
    home: Seq<char>,
    j: int,
)
    requires
        0 <= j < files.len(),
        files[j].1 is Text,
    ensures
        file_overrides(module, files, home).contains(
            (module + "."@ + files[j].0, expand_tilde(files[j].1->Text_0, home)),
        ),
    decreases files.len(),
{
    let one = (module + "."@ + files[j].0, expand_tilde(files[j].1->Text_0, home));
    let before = file_overrides(module, files.drop_last(), home);
    let all = file_overrides(module, files, home);
    if j < files.len() - 1 {
        lemma_file_listed(module, files.drop_last(), home, j);
        assert(files.drop_last()[j] == files[j]);
        let k = choose|k: int| 0 <= k < before.len() && before[k] == one;
        assert(all[k] == one);
    } else {
        assert(all.last() == one);
    }
}

proof fn lemma_module_listed(
    modules: Seq<(Seq<char>, Node)>,
    home: Seq<char>,
    i: int,
    one: (Seq<char>, Seq<char>),
)
    requires
        0 <= i < modules.len(),
        modules[i].1 matches Node::Table(files) && file_overrides(
            modules[i].0,
            files,
            home,
        ).contains(one),
    ensures
        module_overrides(modules, home).contains(one),
    decreases modules.len(),
{
    let before = module_overrides(modules.drop_last(), home);
    let all = module_overrides(modules, home);
    if i < modules.len() - 1 {
        assert(modules.drop_last()[i] == modules[i]);
        lemma_module_listed(modules.drop_last(), home, i, one);
        let k = choose|k: int| 0 <= k < before.len() && before[k] == one;
        assert(all[k] == one);
    } else {
        let here = file_overrides(modules[i].0, modules[i].1->Table_0, home);
        let k = choose|k: int| 0 <= k < here.len() && here[k] == one;
        assert(all[before.len() + k] == one);
    }
}

/// What is listed is a path among the targets of the config.
pub proof fn law_listed_paths_are_set(config: Node, home: Seq<char>, one: (Seq<char>, Seq<char>))
    requires
        all_overrides(config, home).contains(one),
    ensures
        exists|modules: Seq<(Seq<char>, Node)>, files: Seq<(Seq<char>, Node)>, i: int, j: int|
            #![trigger modules[i], files[j]]
            child(config, "targets"@) == Some(Node::Table(modules)) && 0 <= i < modules.len()
                && modules[i].1 == Node::Table(files) && 0 <= j < files.len() && (
            files[j].1 matches Node::Text(t) && one == (
                modules[i].0 + "."@ + files[j].0,
                expand_tilde(t, home),
            )),
{
    let modules = child(config, "targets"@)->0->Table_0;
    let (i, j) = lemma_from_modules(modules, home, one);
    let files = modules[i].1->Table_0;
    assert(modules[i].1 == Node::Table(files) && files[j].1 is Text);
}

proof fn lemma_from_modules(
    modules: Seq<(Seq<char>, Node)>,
    home: Seq<char>,
    one: (Seq<char>, Seq<char>),
) -> (r: (int, int))
    requires
        module_overrides(modules, home).contains(one),
    ensures
        0 <= r.0 < modules.len(),
        modules[r.0].1 matches Node::Table(files) && 0 <= r.1 < files.len() && (
        files[r.1].1 matches Node::Text(t) && one == (
            modules[r.0].0 + "."@ + files[r.1].0,
            expand_tilde(t, home),
        )),
    decreases modules.len(),
{
    let before = module_overrides(modules.drop_last(), home);
    let all = module_overrides(modules, home);
    let k = choose|k: int| 0 <= k < all.len() && all[k] == one;
    if k < before.len() {
        assert(before[k] == one);
        let r = lemma_from_modules(modules.drop_last(), home, one);
        assert(modules.drop_last()[r.0] == modules[r.0]);
        r
    } else {
        let files = modules.last().1->Table_0;
        let here = file_overrides(modules.last().0, files, home);
        assert(here[k - before.len()] == one);
        let j = lemma_from_files(modules.last().0, files, home, one);
        (modules.len() - 1, j)
    }
}

proof fn lemma_from_files(
    module: Seq<char>,
    files: Seq<(Seq<char>, Node)>,
    home: Seq<char>,
    one: (Seq<char>, Seq<char>),
) -> (j: int)
    requires
        file_overrides(module, files, home).contains(one),
    ensures
        0 <= j < files.len(),
        files[j].1 matches Node::Text(t) && one == (
            module + "."@ + files[j].0,
            expand_tilde(t, home),
        ),
    decreases files.len(),
{
    let before = file_overrides(module, files.drop_last(), home);
    let all = file_overrides(module, files, home);
    let k = choose|k: int| 0 <= k < all.len() && all[k] == one;
    if k < before.len() {
        assert(before[k] == one);
        let j = lemma_from_files(module, files.drop_last(), home, one);
        assert(files.drop_last()[j] == files[j]);
        j
    } else {
        files.len() - 1
    }
}

} // verus!
