# team_trial_tracker

Reads screenshots of Umamusume: Pretty Derby Team Trials scores with OCR,
keeps every character's scores in `output/scores.json`, and draws box plots
of them.

- `src/` is the verified library: cropping decisions for screenshots,
  reading names and scores from recognised text lines, the score table,
  box plot statistics (quartiles, fences, whiskers, outliers, mean) and the
  plot layout.
- `app/` is the program around it: reading images and files, running the
  OCR engine's models, JSON, and drawing the images.
