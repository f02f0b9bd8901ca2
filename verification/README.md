# Git of Theseus

How the code of a git repository changes over time: which cohort, author, mail
domain, file type and directory its lines belong to at each sampled commit, and
how long the lines of a commit survive.

`src/` is the library, verified with Verus; `app/` is the command line around it;
`tests/` are tests of the library.

| module | what it does |
|---|---|
| `git` | what git is asked, and how its answers are read |
| `matcher` | which paths are looked at (patterns of `globset`) |
| `calendar` | cohorts and time stamps (dates of `chrono`) |
| `sample` | which commits are looked at |
| `blame` | how many lines of a file come from which commit |
| `analysis` | going through the commits one by one |
| `curves` | the curves of a category, ready to be written |
| `plot`, `survival` | which series are plotted; what happens to lines at which age |
| `path`, `text`, `order`, `count`, `table`, `tally`, `setup` | what these are built from |
| `state` | the model of an analysis: how a commit changes what is known |
| `conservation`, `breakdown` | what holds after every commit |
| `course` | what holds of a whole analysis and of each sample that it writes |

The main theorems are in `course`. `lemma_written_counts`: each number that is
written for a label and a sample is the sum, over the files of that commit, of
their latest counts. `lemma_written_histories`: the same of each entry of the history
of a commit. `lemma_columns_agree`: at each sample the curves of cohorts, of
authors, of domains, of file types and of directories add up to the same number,
that of all lines, if the lines come from known commits. `lemma_uncounted_file`: a
file that is never counted contributes nothing. `lemma_workers_do_not_matter`: the
order in which files are counted changes nothing.

Line counts are 64-bit numbers that wrap around, so that sums are equal modulo
2^64; the theorems also say when they are exact.

What is not proved: the patterns of `globset`, the dates of `chrono`, and all that
is computed with floating-point numbers (the Kaplan-Meier estimate, the fitted
exponential, normalised columns, colours), which stands in `app/`.
