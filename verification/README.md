# quotation_align

Aligns a text with a timed transcript of its reading: each word of the text
gets the start and end time of the spoken word it is matched with.

The words of both sides are compared by edit distance, and a least-cost,
mostly diagonal path is searched through the grid of word distances, window
by window. The verified library (`src/`) holds the logic of that search that
does not depend on floating point:

- `grid`: positions of the search, the steps it may take, when it is done,
  and the diagonal correction (`cells_to_extend_diagonal`);
- `path`: alignment paths with float costs kept as bit patterns, removal of
  abandoned branches (`remove_backtracks`), and the filter of ambiguous words;
- `windows`: window bounds, the decision after each window, the ordering and
  joining of the windows' paths, the run along the grid's edge;
- `names`: the names of the files that keep each window's path;
- `distance`: the Levenshtein distance between two words;
- `text`: the text cut into runs, line and paragraph numbers, word
  detection and normalisation;
- `timing`: which timed word each piece of the text takes its timing from.

`app/` is the program: file and JSON input and output, the parallel distance
matrix, the shortest-path search over float costs, and the choice of the
cheapest start.
